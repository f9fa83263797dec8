//! The keys of an ordered map, in ascending order.

use vstd::prelude::*;
use std::collections::BTreeMap;

verus! {

/// Every number is greater than those before it.
pub open spec fn ascending(s: Seq<u64>) -> bool {
    forall|i: int, j: int| 0 <= i < j < s.len() ==> (#[trigger] s[i]) < (#[trigger] s[j])
}

/// `s` lists the members of `set` in ascending order.
pub open spec fn lists(s: Seq<u64>, set: Set<u64>) -> bool {
    &&& ascending(s)
    &&& forall|x: u64| #[trigger] s.contains(x) <==> set.contains(x)
}

/// The members of a set in ascending order.
pub open spec fn in_order(set: Set<u64>) -> Seq<u64> {
    choose|s: Seq<u64>| lists(s, set)
}

proof fn lemma_smaller_prefix(a: Seq<u64>, b: Seq<u64>, n: int)
    requires
        ascending(a),
        ascending(b),
        forall|x: u64| #[trigger] a.contains(x) <==> b.contains(x),
        0 <= n <= a.len(),
        n <= b.len(),
    ensures
        a.take(n) == b.take(n),
    decreases n,
{
    if n > 0 {
        lemma_smaller_prefix(a, b, n - 1);
        let k = n - 1;
        assert(a.contains(a[k]));
        assert(b.contains(b[k]));
        assert(b.contains(a[k]));
        assert(a.contains(b[k]));
        let i = choose|i: int| 0 <= i < b.len() && b[i] == a[k];
        let j = choose|j: int| 0 <= j < a.len() && a[j] == b[k];
        if i < k {
            assert(a.take(k)[i] == b.take(k)[i]);
            assert(a[i] == a[k]);
        }
        if j < k {
            assert(a.take(k)[j] == b.take(k)[j]);
            assert(b[j] == b[k]);
        }
        if i > k && j > k {
            assert(b[k] < b[i]);
            assert(a[k] < a[j]);
        }
        assert(a[k] == b[k]);
        assert forall|x: int| 0 <= x < n implies a.take(n)[x] == b.take(n)[x] by {
            if x < k {
                assert(a.take(k)[x] == b.take(k)[x]);
            }
        }
    }
}

/// A set has one listing in ascending order.
pub proof fn one_listing(a: Seq<u64>, b: Seq<u64>, set: Set<u64>)
    requires
        lists(a, set),
        lists(b, set),
    ensures
        a == b,
{
    assert forall|x: u64| #[trigger] a.contains(x) <==> b.contains(x) by {}
    let n = if a.len() <= b.len() { a.len() as int } else { b.len() as int };
    lemma_smaller_prefix(a, b, n);
    if a.len() < b.len() {
        let x = b[a.len() as int];
        assert(b.contains(x));
        assert(a.contains(x));
        let i = choose|i: int| 0 <= i < a.len() && a[i] == x;
        assert(a.take(n)[i] == b.take(n)[i]);
        assert(b[i] < b[a.len() as int]);
    }
    if b.len() < a.len() {
        let x = a[b.len() as int];
        assert(a.contains(x));
        assert(b.contains(x));
        let i = choose|i: int| 0 <= i < b.len() && b[i] == x;
        assert(a.take(n)[i] == b.take(n)[i]);
        assert(a[i] < a[b.len() as int]);
    }
    assert(a.take(n) == a);
    assert(b.take(n) == b);
}

/// The members of a set below `n`, in ascending order.
spec fn listed_below(set: Set<u64>, n: int) -> Seq<u64>
    decreases n,
{
    if n <= 0 {
        Seq::empty()
    } else if set.contains((n - 1) as u64) {
        listed_below(set, n - 1).push((n - 1) as u64)
    } else {
        listed_below(set, n - 1)
    }
}

proof fn lemma_listed_below(set: Set<u64>, n: int)
    requires
        0 <= n <= u64::MAX + 1,
    ensures
        ascending(listed_below(set, n)),
        forall|x: u64| #[trigger]
            listed_below(set, n).contains(x) <==> set.contains(x) && x < n,
    decreases n,
{
    if n > 0 {
        lemma_listed_below(set, n - 1);
        let rest = listed_below(set, n - 1);
        let all = listed_below(set, n);
        let top = (n - 1) as u64;
        assert forall|i: int| 0 <= i < rest.len() implies #[trigger] rest[i] < n - 1 by {
            assert(rest.contains(rest[i]));
        }
        assert forall|x: u64| #[trigger] all.contains(x) <==> set.contains(x) && x < n by {
            if set.contains(top) {
                assert(all[rest.len() as int] == top);
                if rest.contains(x) {
                    let i = choose|i: int| 0 <= i < rest.len() && rest[i] == x;
                    assert(all[i] == x);
                }
                if all.contains(x) && x != top {
                    let i = choose|i: int| 0 <= i < all.len() && all[i] == x;
                    assert(rest[i] == x);
                }
            }
        }
    }
}

/// Every set of numbers has a listing, and that is its members in order.
pub proof fn in_order_lists(set: Set<u64>)
    ensures
        lists(in_order(set), set),
{
    lemma_listed_below(set, u64::MAX + 1);
    assert(lists(listed_below(set, u64::MAX + 1), set));
}

/// A listing of a set is its listing.
pub proof fn listing_is_in_order(s: Seq<u64>, set: Set<u64>)
    requires
        lists(s, set),
    ensures
        in_order(set) == s,
{
    one_listing(in_order(set), s, set);
}

/// The keys of a map in ascending order.
pub fn ascending_keys<V>(m: &BTreeMap<u64, V>) -> (r: Vec<u64>)
    ensures
        lists(r@, m@.dom()),
        r@ == in_order(m@.dom()),
{
    broadcast use vstd::std_specs::btree::group_btree_axioms;
    broadcast use vstd::laws_cmp::group_laws_cmp;

    let mut out: Vec<u64> = Vec::new();
    let ghost pairs = vstd::std_specs::iter::IteratorSpec::remaining(
        &vstd::std_specs::btree::spec_btree_map_iter(m),
    );
    for kv in it: m.iter()
        invariant
            it.seq() == pairs,
            out@.len() == it.index(),
            forall|i: int| 0 <= i < out@.len() ==> out@[i] == *pairs[i].0,
    {
        out.push(*kv.0);
    }
    proof {
        let keys = pairs.map_values(|kv: (&u64, &V)| *kv.0);
        assert(out@ == keys);
        assert(vstd::std_specs::btree::increasing_seq(keys));
        assert(vstd::laws_cmp::obeys_cmp::<u64>());
        vstd::std_specs::btree::axiom_increasing_seq_meaning(keys);
        assert forall|i: int, j: int| 0 <= i < j < out@.len() implies (#[trigger] out@[i]) < (
        #[trigger] out@[j]) by {
            assert(vstd::std_specs::cmp::OrdSpec::cmp_spec(&keys[i], &keys[j]) is Less);
        }
        assert forall|x: u64| #[trigger] out@.contains(x) <==> m@.dom().contains(x) by {
            if out@.contains(x) {
                let i = choose|i: int| 0 <= i < out@.len() && out@[i] == x;
                assert(m@.contains_key(*pairs[i].0));
            }
            if m@.contains_key(x) {
                assert(pairs.contains((&x, &m@[x])));
                let i = choose|i: int| 0 <= i < pairs.len() && pairs[i] == (&x, &m@[x]);
                assert(out@[i] == x);
            }
        }
        listing_is_in_order(out@, m@.dom());
    }
    out
}

} // verus!
