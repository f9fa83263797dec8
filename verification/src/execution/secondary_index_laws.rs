//! What an index yields of all rows that were entered into it.

use vstd::prelude::*;
use crate::execution::operators::Datum;
use crate::execution::secondary_index::{
    above, an_entered_row_is_found, beneath, by_value, entered, entering_keeps_the_order,
    entry_place, key_order, key_order_is_total, lemma_entry_place, lemma_found, rows_between,
    rows_with, End,
};
use crate::float::Order;

verus! {

/// The rows that were entered, each under a value, in the order of their entry.
pub type History = Seq<(Datum, u64)>;

/// The entries of an index into which some rows were entered.
pub open spec fn entries_after(h: History) -> Seq<(Datum, Seq<u64>)>
    decreases h.len(),
{
    if h.len() == 0 {
        Seq::empty()
    } else {
        entered(entries_after(h.drop_last()), h.last().0, h.last().1)
    }
}

/// The places, among the first `n`, of the rows that were entered under a value.
pub open spec fn places_with(h: History, d: Datum, n: int) -> Seq<int>
    decreases n,
{
    if n <= 0 || n > h.len() {
        Seq::empty()
    } else if h[n - 1].0 == d {
        places_with(h, d, n - 1).push(n - 1)
    } else {
        places_with(h, d, n - 1)
    }
}

/// The rows that were entered at some places.
pub open spec fn ids_at(h: History, places: Seq<int>) -> Seq<u64> {
    places.map_values(|p: int| h[p].1)
}

proof fn lemma_places_with(h: History, d: Datum, n: int)
    requires
        0 <= n <= h.len(),
    ensures
        forall|k: int|
            0 <= k < places_with(h, d, n).len() ==> 0 <= #[trigger] places_with(h, d, n)[k] < n
                && h[places_with(h, d, n)[k]].0 == d,
        forall|p: int|
            0 <= p < n && (#[trigger] h[p]).0 == d ==> places_with(h, d, n).contains(p),
        forall|a: int, b: int|
            0 <= a < b < places_with(h, d, n).len() ==> #[trigger] places_with(h, d, n)[a]
                < #[trigger] places_with(h, d, n)[b],
    decreases n,
{
    if n > 0 {
        lemma_places_with(h, d, n - 1);
        let before = places_with(h, d, n - 1);
        let all = places_with(h, d, n);
        assert forall|p: int| 0 <= p < n && (#[trigger] h[p]).0 == d implies all.contains(p) by {
            if p < n - 1 {
                let k = choose|k: int| 0 <= k < before.len() && before[k] == p;
                assert(all[k] == p);
            } else {
                assert(all[before.len() as int] == p);
            }
        }
    }
}

proof fn lemma_same_places(h: History, d: Datum, n: int)
    requires
        0 <= n < h.len(),
    ensures
        places_with(h.drop_last(), d, n) == places_with(h, d, n),
    decreases n,
{
    if n > 0 {
        lemma_same_places(h, d, n - 1);
        assert(h.drop_last()[n - 1] == h[n - 1]);
    }
}

/// The values of an index are in order, whatever was entered into it.
pub proof fn entries_are_in_order(h: History)
    ensures
        by_value(entries_after(h)),
    decreases h.len(),
{
    if h.len() > 0 {
        entries_are_in_order(h.drop_last());
        entering_keeps_the_order(entries_after(h.drop_last()), h.last().0, h.last().1);
    }
}

/// A lookup of a value lists the rows that were entered under it, in the order of their
/// entry, and is empty exactly where none was.
pub proof fn a_lookup_lists_what_was_entered(h: History, d: Datum)
    ensures
        rows_with(entries_after(h), d) == ids_at(h, places_with(h, d, h.len() as int)),
        rows_with(entries_after(h), d).len() == 0 <==> forall|i: int|
            0 <= i < h.len() ==> (#[trigger] h[i]).0 != d,
    decreases h.len(),
{
    let n = h.len() as int;
    lemma_places_with(h, d, n);
    let places = places_with(h, d, n);
    if n > 0 {
        let less = h.drop_last();
        let before = entries_after(less);
        let was = places_with(less, d, n - 1);
        a_lookup_lists_what_was_entered(less, d);
        entries_are_in_order(less);
        an_entered_row_is_found(before, h.last().0, h.last().1, d);
        lemma_same_places(h, d, n - 1);
        lemma_places_with(less, d, n - 1);
        assert(ids_at(less, was) =~= ids_at(h, was)) by {
            assert forall|k: int| 0 <= k < was.len() implies less[was[k]] == h[was[k]] by {}
        }
        if h.last().0 == d {
            assert(ids_at(h, places) =~= ids_at(h, was).push(h.last().1));
        }
    } else {
        assert(ids_at(h, places) =~= Seq::<u64>::empty());
    }
    if exists|i: int| 0 <= i < n && (#[trigger] h[i]).0 == d {
        let i = choose|i: int| 0 <= i < n && (#[trigger] h[i]).0 == d;
        assert(places.contains(i));
    }
    if places.len() > 0 {
        assert(h[places[0]].0 == d);
    }
}

proof fn lemma_range_of_one(entries: Seq<(Datum, Seq<u64>)>, d: Datum, i: int)
    requires
        by_value(entries),
        0 <= i <= entries.len(),
    ensures
        rows_between(entries, End::Included(d), End::Included(d), i) == (if i <= entry_place(
            entries,
            d,
            0,
        ) {
            rows_with(entries, d)
        } else {
            Seq::<u64>::empty()
        }),
    decreases entries.len() - i,
{
    lemma_entry_place(entries, d, 0);
    let p = entry_place(entries, d, 0);
    let none = Seq::<u64>::empty();
    if i < entries.len() {
        lemma_range_of_one(entries, d, i + 1);
        key_order_is_total(entries[i].0, d);
        if i == p {
            if entries[i].0 == d {
                assert(entries[i].1 + none =~= entries[i].1);
            }
        } else if i < p {
            assert(key_order(entries[i].0, d) == Order::Less);
        } else {
            assert(key_order(entries[p].0, entries[i].0) == Order::Less);
            if entries[i].0 == d {
                assert(false);
            }
        }
    }
}

/// A lookup of a value is the range from the value to itself.
pub proof fn a_lookup_is_a_range(entries: Seq<(Datum, Seq<u64>)>, d: Datum)
    requires
        by_value(entries),
    ensures
        rows_with(entries, d) == rows_between(entries, End::Included(d), End::Included(d), 0),
{
    lemma_entry_place(entries, d, 0);
    lemma_range_of_one(entries, d, 0);
}

/// Whether a value lies in a range.
pub open spec fn within(d: Datum, lower: End, upper: End) -> bool {
    above(d, lower) && beneath(d, upper)
}

/// Whether one row stands before another: it has the lesser value, or the same and was
/// entered first.
pub open spec fn stands_before(h: History, p: int, q: int) -> bool {
    key_order(h[p].0, h[q].0) == Order::Less || h[p].0 == h[q].0 && p < q
}

/// Whether a list has every row that was entered under a value in a range, once, and no
/// other, by value and then by entry.
pub open spec fn lists_range(h: History, lower: End, upper: End, places: Seq<int>) -> bool {
    &&& forall|k: int|
        0 <= k < places.len() ==> 0 <= #[trigger] places[k] < h.len() && within(
            h[places[k]].0,
            lower,
            upper,
        )
    &&& forall|p: int|
        0 <= p < h.len() && within((#[trigger] h[p]).0, lower, upper) ==> places.contains(p)
    &&& forall|a: int, b: int|
        0 <= a < b < places.len() ==> stands_before(
            h,
            #[trigger] places[a],
            #[trigger] places[b],
        )
}

/// The places of the rows of the values in a range, of the entries from the `i`-th on.
spec fn places_between(
    h: History,
    entries: Seq<(Datum, Seq<u64>)>,
    lower: End,
    upper: End,
    i: int,
) -> Seq<int>
    decreases entries.len() - i,
{
    if 0 <= i < entries.len() {
        let rest = places_between(h, entries, lower, upper, i + 1);
        if within(entries[i].0, lower, upper) {
            places_with(h, entries[i].0, h.len() as int) + rest
        } else {
            rest
        }
    } else {
        Seq::empty()
    }
}

proof fn lemma_places_between(h: History, lower: End, upper: End, i: int)
    requires
        0 <= i <= entries_after(h).len(),
    ensures
        ({
            let e = entries_after(h);
            let places = places_between(h, e, lower, upper, i);
            &&& ids_at(h, places) == rows_between(e, lower, upper, i)
            &&& forall|k: int|
                0 <= k < places.len() ==> 0 <= #[trigger] places[k] < h.len() && within(
                    h[places[k]].0,
                    lower,
                    upper,
                ) && exists|j: int| i <= j < e.len() && (#[trigger] e[j]).0 == h[places[k]].0
            &&& forall|p: int, j: int|
                0 <= p < h.len() && within((#[trigger] h[p]).0, lower, upper) && i <= j < e.len()
                    && (#[trigger] e[j]).0 == h[p].0 ==> places.contains(p)
            &&& forall|a: int, b: int|
                0 <= a < b < places.len() ==> stands_before(
                    h,
                    #[trigger] places[a],
                    #[trigger] places[b],
                )
        }),
    decreases entries_after(h).len() - i,
{
    let e = entries_after(h);
    let all = places_between(h, e, lower, upper, i);
    entries_are_in_order(h);
    if i < e.len() {
        lemma_places_between(h, lower, upper, i + 1);
        let rest = places_between(h, e, lower, upper, i + 1);
        let d = e[i].0;
        let here = places_with(h, d, h.len() as int);
        lemma_places_with(h, d, h.len() as int);
        lemma_found(e, d, i);
        a_lookup_lists_what_was_entered(h, d);
        if within(d, lower, upper) {
            assert(all =~= here + rest);
            assert(ids_at(h, all) =~= ids_at(h, here) + ids_at(h, rest));
            assert forall|k: int| 0 <= k < all.len() implies 0 <= #[trigger] all[k] < h.len()
                && within(h[all[k]].0, lower, upper) && exists|j: int|
                i <= j < e.len() && (#[trigger] e[j]).0 == h[all[k]].0 by {
                if k < here.len() {
                    assert(all[k] == here[k]);
                    assert(e[i].0 == h[all[k]].0);
                } else {
                    assert(all[k] == rest[k - here.len()]);
                }
            }
            assert forall|p: int, j: int|
                0 <= p < h.len() && within((#[trigger] h[p]).0, lower, upper) && i <= j < e.len()
                    && (#[trigger] e[j]).0 == h[p].0 implies all.contains(p) by {
                if j == i {
                    let k = choose|k: int| 0 <= k < here.len() && here[k] == p;
                    assert(all[k] == p);
                } else {
                    assert(rest.contains(p));
                    let k = choose|k: int| 0 <= k < rest.len() && rest[k] == p;
                    assert(all[here.len() + k] == p);
                }
            }
            assert forall|a: int, b: int| 0 <= a < b < all.len() implies stands_before(
                h,
                #[trigger] all[a],
                #[trigger] all[b],
            ) by {
                let m = here.len();
                if b < m {
                    assert(all[a] == here[a] && all[b] == here[b]);
                } else if a < m {
                    assert(all[a] == here[a] && all[b] == rest[b - m]);
                    let j = choose|j: int|
                        i + 1 <= j < e.len() && (#[trigger] e[j]).0 == h[rest[b - m]].0;
                    assert(key_order(e[i].0, e[j].0) == Order::Less);
                } else {
                    assert(all[a] == rest[a - m] && all[b] == rest[b - m]);
                }
            }
        } else {
            assert forall|p: int, j: int|
                0 <= p < h.len() && within((#[trigger] h[p]).0, lower, upper) && i <= j < e.len()
                    && (#[trigger] e[j]).0 == h[p].0 implies all.contains(p) by {
                assert(j != i);
            }
        }
    } else {
        assert(ids_at(h, all) =~= Seq::<u64>::empty());
    }
}

/// A range lists every row that was entered under a value in it, once, and no other: by
/// ascending value, and those of one value in the order of their entry.
pub proof fn a_range_lists_what_was_entered(h: History, lower: End, upper: End)
    ensures
        exists|places: Seq<int>| #[trigger]
            lists_range(h, lower, upper, places) && rows_between(
                entries_after(h),
                lower,
                upper,
                0,
            ) == ids_at(h, places),
{
    let e = entries_after(h);
    let places = places_between(h, e, lower, upper, 0);
    lemma_places_between(h, lower, upper, 0);
    assert forall|p: int| 0 <= p < h.len() && within(
        (#[trigger] h[p]).0,
        lower,
        upper,
    ) implies places.contains(p) by {
        let d = h[p].0;
        a_lookup_lists_what_was_entered(h, d);
        assert(rows_with(e, d).len() > 0);
        assert(e[entry_place(e, d, 0)].0 == d);
    }
    assert(lists_range(h, lower, upper, places));
}

} // verus!
