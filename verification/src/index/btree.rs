//! A B+ tree: an index whose nodes split when they are full.

use vstd::prelude::*;
use crate::error::DatabaseError;
use crate::float::{is_at_most, not_a_number, rank, F64, INFINITY, NEGATIVE_INFINITY};

verus! {

/// A node of the tree.
pub enum Node {
    /// Keys in ascending order, each with its value.
    Leaf { keys: Vec<F64>, values: Vec<usize> },
    /// Separators in ascending order, and one more child than separators. A
    /// separator is greater than every key of the child before it and at most
    /// every key of the child behind it.
    Internal { keys: Vec<F64>, children: Vec<Box<Node>> },
}

/// How many of the leading keys rank at most `r`.
pub open spec fn at_most_count(keys: Seq<F64>, r: int) -> int
    decreases keys.len(),
{
    if keys.len() == 0 {
        0
    } else if rank(keys.last().bits) <= r {
        keys.len() as int
    } else {
        at_most_count(keys.drop_last(), r)
    }
}

/// Keys that ascend, none of them twice, within `low..high`.
pub open spec fn ascending_keys(keys: Seq<F64>, low: int, high: int) -> bool {
    &&& forall|i: int|
        0 <= i < keys.len() ==> !not_a_number((#[trigger] keys[i]).bits) && low <= rank(
            keys[i].bits,
        ) < high
    &&& forall|i: int, j: int|
        0 <= i < j < keys.len() ==> rank((#[trigger] keys[i]).bits) < rank(
            (#[trigger] keys[j]).bits,
        )
}

/// Where the range of child `i` begins.
pub open spec fn child_low(keys: Seq<F64>, i: int, low: int) -> int {
    if i <= 0 { low } else { rank(keys[i - 1].bits) }
}

/// Where the range of child `i` ends.
pub open spec fn child_high(keys: Seq<F64>, i: int, high: int) -> int {
    if i >= keys.len() { high } else { rank(keys[i].bits) }
}

/// The number of levels.
pub open spec fn depth(n: Node) -> nat
    decreases n,
{
    match n {
        Node::Leaf { .. } => 1,
        Node::Internal { keys, children } => if children@.len() == 0 {
            1
        } else {
            1 + depth(*children@[0])
        },
    }
}

/// What a leaf holds under a rank: the key and its value.
pub open spec fn held_here(keys: Seq<F64>, values: Seq<usize>, r: int) -> Option<(F64, usize)> {
    if exists|i: int| 0 <= i < keys.len() && rank((#[trigger] keys[i]).bits) == r {
        let i = choose|i: int| 0 <= i < keys.len() && rank((#[trigger] keys[i]).bits) == r;
        Some((keys[i], values[i]))
    } else {
        None
    }
}

/// What a tree holds under a rank.
pub open spec fn held(n: Node, r: int) -> Option<(F64, usize)>
    decreases n,
{
    match n {
        Node::Leaf { keys, values } => held_here(keys@, values@, r),
        Node::Internal { keys, children } => {
            let i = at_most_count(keys@, r);
            if 0 <= i < children@.len() { held(*children@[i], r) } else { None }
        },
    }
}

/// A well-formed tree whose keys rank within `low..high`.
pub open spec fn well_formed(n: Node, low: int, high: int, order: int) -> bool
    decreases n,
{
    match n {
        Node::Leaf { keys, values } => {
            &&& keys@.len() == values@.len()
            &&& keys@.len() < order
            &&& ascending_keys(keys@, low, high)
        },
        Node::Internal { keys, children } => {
            &&& 1 <= keys@.len() < order
            &&& children@.len() == keys@.len() + 1
            &&& ascending_keys(keys@, low + 1, high)
            &&& forall|i: int|
                0 <= i < children@.len() ==> well_formed(
                    *(#[trigger] children@[i]),
                    child_low(keys@, i, low),
                    child_high(keys@, i, high),
                    order,
                ) && depth(*children@[i]) == depth(*children@[0])
        },
    }
}

/// What a place of the tree holds after an insertion: a key that is there
/// already stays and gets the new value.
pub open spec fn after_insert(
    before: Option<(F64, usize)>,
    r: int,
    key: F64,
    value: usize,
) -> Option<(F64, usize)> {
    if r == rank(key.bits) {
        match before {
            Some((k, _)) => Some((k, value)),
            None => Some((key, value)),
        }
    } else {
        before
    }
}

// ---- counting ------------------------------------------------------------------------

proof fn lemma_count(keys: Seq<F64>, low: int, high: int, r: int)
    requires
        ascending_keys(keys, low, high),
    ensures
        0 <= at_most_count(keys, r) <= keys.len(),
        forall|i: int| 0 <= i < at_most_count(keys, r) ==> rank((#[trigger] keys[i]).bits) <= r,
        forall|i: int|
            at_most_count(keys, r) <= i < keys.len() ==> rank((#[trigger] keys[i]).bits) > r,
    decreases keys.len(),
{
    if keys.len() > 0 {
        if rank(keys.last().bits) <= r {
            assert forall|i: int| 0 <= i < keys.len() implies rank((#[trigger] keys[i]).bits)
                <= r by {
                if i < keys.len() - 1 {
                    assert(rank(keys[i].bits) < rank(keys[keys.len() - 1].bits));
                }
            }
        } else {
            let rest = keys.drop_last();
            assert(ascending_keys(rest, low, high)) by {
                assert forall|i: int, j: int| 0 <= i < j < rest.len() implies rank(
                    (#[trigger] rest[i]).bits,
                ) < rank((#[trigger] rest[j]).bits) by {
                    assert(rest[i] == keys[i] && rest[j] == keys[j]);
                }
                assert forall|i: int| 0 <= i < rest.len() implies !not_a_number(
                    (#[trigger] rest[i]).bits,
                ) && low <= rank(rest[i].bits) < high by {
                    assert(rest[i] == keys[i]);
                }
            }
            lemma_count(rest, low, high, r);
            let c = at_most_count(rest, r);
            assert forall|i: int| 0 <= i < c implies rank((#[trigger] keys[i]).bits) <= r by {
                assert(keys[i] == rest[i]);
            }
            assert forall|i: int| c <= i < keys.len() implies rank((#[trigger] keys[i]).bits)
                > r by {
                if i < rest.len() {
                    assert(keys[i] == rest[i]);
                }
            }
        }
    }
}

proof fn lemma_count_is(keys: Seq<F64>, low: int, high: int, r: int, c: int)
    requires
        ascending_keys(keys, low, high),
        0 <= c <= keys.len(),
        c > 0 ==> rank(keys[c - 1].bits) <= r,
        c < keys.len() ==> rank(keys[c].bits) > r,
    ensures
        at_most_count(keys, r) == c,
{
    lemma_count(keys, low, high, r);
    let d = at_most_count(keys, r);
    if d < c {
        assert(rank(keys[c - 1].bits) > r);
    }
    if d > c {
        assert(rank(keys[c].bits) <= r);
    }
}

/// How many of the leading keys rank at most as `key` does.
fn count_at_most(keys: &Vec<F64>, key: F64, Ghost(low): Ghost<int>, Ghost(high): Ghost<int>) -> (r:
    usize)
    requires
        ascending_keys(keys@, low, high),
        !not_a_number(key.bits),
    ensures
        r == at_most_count(keys@, rank(key.bits)),
        r <= keys@.len(),
{
    let mut a: usize = 0;
    let mut b: usize = keys.len();
    while a < b
        invariant
            a <= b <= keys@.len(),
            ascending_keys(keys@, low, high),
            !not_a_number(key.bits),
            a > 0 ==> rank(keys@[a - 1].bits) <= rank(key.bits),
            b < keys@.len() ==> rank(keys@[b as int].bits) > rank(key.bits),
        decreases b - a,
    {
        let mid: usize = a + (b - a) / 2;
        if keys[mid].at_most(key) {
            a = mid + 1;
        } else {
            b = mid;
        }
    }
    proof {
        lemma_count_is(keys@, low, high, rank(key.bits), a as int);
    }
    a
}

// ---- leaves --------------------------------------------------------------------------

proof fn lemma_held_here(keys: Seq<F64>, values: Seq<usize>, low: int, high: int, i: int)
    requires
        ascending_keys(keys, low, high),
        0 <= i < keys.len(),
    ensures
        held_here(keys, values, rank(keys[i].bits)) == Some((keys[i], values[i])),
{
    let r = rank(keys[i].bits);
    assert(exists|k: int| 0 <= k < keys.len() && rank((#[trigger] keys[k]).bits) == r);
    let k = choose|k: int| 0 <= k < keys.len() && rank((#[trigger] keys[k]).bits) == r;
    assert(k == i);
}

proof fn lemma_inserted_ascending(keys: Seq<F64>, key: F64, low: int, high: int)
    requires
        ascending_keys(keys, low, high),
        !not_a_number(key.bits),
        low <= rank(key.bits) < high,
        forall|i: int| 0 <= i < keys.len() ==> rank((#[trigger] keys[i]).bits) != rank(key.bits),
    ensures
        0 <= at_most_count(keys, rank(key.bits)) <= keys.len(),
        ascending_keys(keys.insert(at_most_count(keys, rank(key.bits)), key), low, high),
{
    lemma_count(keys, low, high, rank(key.bits));
    let p = at_most_count(keys, rank(key.bits));
    let after = keys.insert(p, key);
    assert forall|i: int| 0 <= i < after.len() implies !not_a_number((#[trigger] after[i]).bits)
        && low <= rank(after[i].bits) < high by {
        if i < p {
            assert(after[i] == keys[i]);
        } else if i > p {
            assert(after[i] == keys[i - 1]);
        }
    }
    assert forall|i: int, j: int| 0 <= i < j < after.len() implies rank((#[trigger] after[i]).bits)
        < rank((#[trigger] after[j]).bits) by {
        let x = if i < p { i } else { i - 1 };
        let y = if j < p { j } else { j - 1 };
        if i != p {
            assert(after[i] == keys[x]);
        }
        if j != p {
            assert(after[j] == keys[y]);
        }
    }
}

proof fn lemma_leaf_insert(
    keys: Seq<F64>,
    values: Seq<usize>,
    key: F64,
    value: usize,
    low: int,
    high: int,
    r: int,
)
    requires
        ascending_keys(keys, low, high),
        keys.len() == values.len(),
        !not_a_number(key.bits),
        low <= rank(key.bits) < high,
        forall|i: int| 0 <= i < keys.len() ==> rank((#[trigger] keys[i]).bits) != rank(key.bits),
    ensures
        ({
            let p = at_most_count(keys, rank(key.bits));
            held_here(keys.insert(p, key), values.insert(p, value), r) == after_insert(
                held_here(keys, values, r),
                r,
                key,
                value,
            )
        }),
{
    lemma_count(keys, low, high, rank(key.bits));
    lemma_inserted_ascending(keys, key, low, high);
    let p = at_most_count(keys, rank(key.bits));
    let k2 = keys.insert(p, key);
    let v2 = values.insert(p, value);
    if r == rank(key.bits) {
        lemma_held_here(k2, v2, low, high, p);
    } else if exists|i: int| 0 <= i < keys.len() && rank((#[trigger] keys[i]).bits) == r {
        let i = choose|i: int| 0 <= i < keys.len() && rank((#[trigger] keys[i]).bits) == r;
        lemma_held_here(keys, values, low, high, i);
        lemma_held_here(k2, v2, low, high, if i < p { i } else { i + 1 });
    } else {
        assert forall|i: int| 0 <= i < k2.len() implies rank((#[trigger] k2[i]).bits) != r by {
            if i < p {
                assert(k2[i] == keys[i]);
            } else if i > p {
                assert(k2[i] == keys[i - 1]);
            }
        }
    }
}

proof fn lemma_leaf_update(
    keys: Seq<F64>,
    values: Seq<usize>,
    key: F64,
    value: usize,
    low: int,
    high: int,
    p: int,
    r: int,
)
    requires
        ascending_keys(keys, low, high),
        keys.len() == values.len(),
        0 <= p < keys.len(),
        rank(keys[p].bits) == rank(key.bits),
    ensures
        held_here(keys, values.update(p, value), r) == after_insert(
            held_here(keys, values, r),
            r,
            key,
            value,
        ),
{
    let v2 = values.update(p, value);
    if exists|i: int| 0 <= i < keys.len() && rank((#[trigger] keys[i]).bits) == r {
        let i = choose|i: int| 0 <= i < keys.len() && rank((#[trigger] keys[i]).bits) == r;
        lemma_held_here(keys, values, low, high, i);
        lemma_held_here(keys, v2, low, high, i);
    }
}

proof fn lemma_cut_ascending(keys: Seq<F64>, low: int, high: int, from: int, to: int)
    requires
        ascending_keys(keys, low, high),
        0 <= from <= to <= keys.len(),
    ensures
        ascending_keys(
            keys.subrange(from, to),
            if from < to && low < rank(keys[from].bits) { rank(keys[from].bits) } else { low },
            if to < keys.len() { rank(keys[to].bits) } else { high },
        ),
{
    let cut = keys.subrange(from, to);
    assert forall|i: int| 0 <= i < cut.len() implies !not_a_number((#[trigger] cut[i]).bits)
        && rank(keys[from].bits) <= rank(cut[i].bits) && low <= rank(cut[i].bits) < high && (to
        < keys.len() ==> rank(cut[i].bits) < rank(keys[to].bits)) by {
        assert(cut[i] == keys[from + i]);
        if i > 0 {
            assert(rank(keys[from].bits) < rank(keys[from + i].bits));
        }
    }
    assert forall|i: int, j: int| 0 <= i < j < cut.len() implies rank((#[trigger] cut[i]).bits)
        < rank((#[trigger] cut[j]).bits) by {
        assert(cut[i] == keys[from + i] && cut[j] == keys[from + j]);
    }
}

proof fn lemma_leaf_split(
    keys: Seq<F64>,
    values: Seq<usize>,
    low: int,
    high: int,
    mid: int,
    r: int,
)
    requires
        ascending_keys(keys, low, high),
        keys.len() == values.len(),
        0 < mid < keys.len(),
    ensures
        held_here(keys, values, r) == if r < rank(keys[mid].bits) {
            held_here(keys.subrange(0, mid), values.subrange(0, mid), r)
        } else {
            held_here(
                keys.subrange(mid, keys.len() as int),
                values.subrange(mid, keys.len() as int),
                r,
            )
        },
{
    let n = keys.len() as int;
    let k1 = keys.subrange(0, mid);
    let v1 = values.subrange(0, mid);
    let k2 = keys.subrange(mid, n);
    let v2 = values.subrange(mid, n);
    lemma_cut_ascending(keys, low, high, 0, mid);
    lemma_cut_ascending(keys, low, high, mid, n);
    if exists|i: int| 0 <= i < n && rank((#[trigger] keys[i]).bits) == r {
        let i = choose|i: int| 0 <= i < n && rank((#[trigger] keys[i]).bits) == r;
        lemma_held_here(keys, values, low, high, i);
        if i < mid {
            assert(k1[i] == keys[i]);
            lemma_held_here(
                k1,
                v1,
                if low < rank(keys[0].bits) { rank(keys[0].bits) } else { low },
                rank(keys[mid].bits),
                i,
            );
        } else {
            assert(k2[i - mid] == keys[i]);
            if i > mid {
                assert(rank(keys[mid].bits) < rank(keys[i].bits));
            }
            lemma_held_here(
                k2,
                v2,
                if low < rank(keys[mid].bits) { rank(keys[mid].bits) } else { low },
                high,
                i - mid,
            );
        }
    } else {
        assert forall|i: int| 0 <= i < k1.len() implies rank((#[trigger] k1[i]).bits) != r by {
            assert(k1[i] == keys[i]);
        }
        assert forall|i: int| 0 <= i < k2.len() implies rank((#[trigger] k2[i]).bits) != r by {
            assert(k2[i] == keys[mid + i]);
        }
    }
}

// ---- inner nodes ---------------------------------------------------------------------

/// What the children of an inner node hold under a rank.
pub open spec fn held_below(keys: Seq<F64>, children: Seq<Box<Node>>, r: int) -> Option<
    (F64, usize),
> {
    let i = at_most_count(keys, r);
    if 0 <= i < children.len() { held(*children[i], r) } else { None }
}

/// The parts of a well-formed inner node; it may be one separator too full.
pub open spec fn parts_fit(
    keys: Seq<F64>,
    children: Seq<Box<Node>>,
    low: int,
    high: int,
    order: int,
    levels: nat,
) -> bool {
    &&& children.len() == keys.len() + 1
    &&& ascending_keys(keys, low + 1, high)
    &&& forall|i: int|
        0 <= i < children.len() ==> well_formed(
            *(#[trigger] children[i]),
            child_low(keys, i, low),
            child_high(keys, i, high),
            order,
        ) && depth(*children[i]) == levels
}

proof fn lemma_child_changed(
    keys: Seq<F64>,
    children: Seq<Box<Node>>,
    child: Box<Node>,
    key: F64,
    value: usize,
    low: int,
    high: int,
    order: int,
    levels: nat,
)
    requires
        parts_fit(keys, children, low, high, order, levels),
        ({
            let at = at_most_count(keys, rank(key.bits));
            &&& 0 <= at <= keys.len()
            &&& well_formed(*child, child_low(keys, at, low), child_high(keys, at, high), order)
            &&& depth(*child) == levels
            &&& forall|q: int| #[trigger]
                held(*child, q) == after_insert(held(*children[at], q), q, key, value)
        }),
    ensures
        ({
            let at = at_most_count(keys, rank(key.bits));
            let changed = children.update(at, child);
            &&& parts_fit(keys, changed, low, high, order, levels)
            &&& forall|q: int| #[trigger]
                held_below(keys, changed, q) == after_insert(
                    held_below(keys, children, q),
                    q,
                    key,
                    value,
                )
        }),
{
    let at = at_most_count(keys, rank(key.bits));
    let changed = children.update(at, child);
    assert forall|i: int| 0 <= i < changed.len() implies well_formed(
        *(#[trigger] changed[i]),
        child_low(keys, i, low),
        child_high(keys, i, high),
        order,
    ) && depth(*changed[i]) == levels by {
        if i != at {
            assert(changed[i] == children[i]);
        }
    }
    assert forall|q: int| #[trigger]
        held_below(keys, changed, q) == after_insert(
            held_below(keys, children, q),
            q,
            key,
            value,
        ) by {
        lemma_count(keys, low + 1, high, q);
        let i = at_most_count(keys, q);
        if i == at {
            assert(held(*child, q) == after_insert(held(*children[at], q), q, key, value));
        }
    }
}

#[verifier::spinoff_prover]
#[verifier::rlimit(50)]
proof fn lemma_child_split(
    keys: Seq<F64>,
    children: Seq<Box<Node>>,
    child: Box<Node>,
    separator: F64,
    right: Box<Node>,
    key: F64,
    value: usize,
    low: int,
    high: int,
    order: int,
    levels: nat,
)
    requires
        parts_fit(keys, children, low, high, order, levels),
        !not_a_number(separator.bits),
        ({
            let at = at_most_count(keys, rank(key.bits));
            let s = rank(separator.bits);
            &&& 0 <= at <= keys.len()
            &&& child_low(keys, at, low) < s < child_high(keys, at, high)
            &&& well_formed(*child, child_low(keys, at, low), s, order)
            &&& well_formed(*right, s, child_high(keys, at, high), order)
            &&& depth(*child) == levels
            &&& depth(*right) == levels
            &&& forall|q: int| #[trigger]
                after_insert(held(*children[at], q), q, key, value) == if q < s {
                    held(*child, q)
                } else {
                    held(*right, q)
                }
        }),
    ensures
        ({
            let at = at_most_count(keys, rank(key.bits));
            let k2 = keys.insert(at, separator);
            let c2 = children.update(at, child).insert(at + 1, right);
            &&& parts_fit(k2, c2, low, high, order, levels)
            &&& forall|q: int| #[trigger]
                held_below(k2, c2, q) == after_insert(held_below(keys, children, q), q, key, value)
        }),
{
    let at = at_most_count(keys, rank(key.bits));
    let s = rank(separator.bits);
    let k2 = keys.insert(at, separator);
    let c2 = children.update(at, child).insert(at + 1, right);
    lemma_count(keys, low + 1, high, rank(key.bits));
    assert forall|i: int| 0 <= i < keys.len() implies (i < at <==> rank((#[trigger] keys[i]).bits)
        < s) && rank(keys[i].bits) != s by {
        if i < at - 1 {
            assert(rank(keys[i].bits) < rank(keys[at - 1].bits));
        }
        if i > at {
            assert(rank(keys[at].bits) < rank(keys[i].bits));
        }
    }
    assert(low < s < high) by {
        if at > 0 {
            assert(rank(keys[at - 1].bits) >= low + 1);
        }
        if at < keys.len() {
            assert(rank(keys[at].bits) < high);
        }
    }
    assert(ascending_keys(k2, low + 1, high)) by {
        assert forall|i: int| 0 <= i < k2.len() implies !not_a_number((#[trigger] k2[i]).bits)
            && low + 1 <= rank(k2[i].bits) < high by {
            if i < at {
                assert(k2[i] == keys[i]);
            } else if i > at {
                assert(k2[i] == keys[i - 1]);
            }
        }
        assert forall|i: int, j: int| 0 <= i < j < k2.len() implies rank((#[trigger] k2[i]).bits)
            < rank((#[trigger] k2[j]).bits) by {
            let x = if i < at { i } else { i - 1 };
            let y = if j < at { j } else { j - 1 };
            if i != at {
                assert(k2[i] == keys[x]);
            }
            if j != at {
                assert(k2[j] == keys[y]);
            }
        }
    }
    assert forall|i: int| 0 <= i < c2.len() implies well_formed(
        *(#[trigger] c2[i]),
        child_low(k2, i, low),
        child_high(k2, i, high),
        order,
    ) && depth(*c2[i]) == levels by {
        if i < at {
            assert(c2[i] == children[i]);
            assert(k2[i] == keys[i]);
            if i > 0 {
                assert(k2[i - 1] == keys[i - 1]);
            }
        } else if i == at {
            assert(c2[i] == child);
            if i > 0 {
                assert(k2[i - 1] == keys[i - 1]);
            }
        } else if i == at + 1 {
            assert(c2[i] == right);
            assert(k2[i - 1] == separator);
            if i < k2.len() {
                assert(k2[i] == keys[i - 1]);
            }
        } else {
            assert(c2[i] == children[i - 1]);
            assert(k2[i - 1] == keys[i - 2]);
            if i < k2.len() {
                assert(k2[i] == keys[i - 1]);
            }
        }
    }
    assert forall|q: int| #[trigger]
        held_below(k2, c2, q) == after_insert(held_below(keys, children, q), q, key, value) by {
        lemma_count(keys, low + 1, high, q);
        let i = at_most_count(keys, q);
        assert(after_insert(held(*children[at], q), q, key, value) == if q < s {
            held(*child, q)
        } else {
            held(*right, q)
        });
        if q < s {
            assert(i <= at);
            if i > 0 {
                assert(k2[i - 1] == keys[i - 1]);
            }
            if i < at {
                assert(k2[i] == keys[i]);
            }
            lemma_count_is(k2, low + 1, high, q, i);
            if i < at {
                assert(c2[i] == children[i]);
                assert(q != rank(key.bits));
            }
        } else {
            assert(i >= at);
            if i > at {
                assert(k2[i] == keys[i - 1]);
            }
            if i < keys.len() {
                assert(k2[i + 1] == keys[i]);
            }
            lemma_count_is(k2, low + 1, high, q, i + 1);
            if i > at {
                assert(c2[i + 1] == children[i]);
                assert(q != rank(key.bits));
            }
        }
    }
}

proof fn lemma_inner_split(
    keys: Seq<F64>,
    children: Seq<Box<Node>>,
    low: int,
    high: int,
    order: int,
    levels: nat,
    mid: int,
)
    requires
        parts_fit(keys, children, low, high, order, levels),
        0 <= mid < keys.len(),
    ensures
        ({
            let n = keys.len() as int;
            let s = rank(keys[mid].bits);
            let k1 = keys.subrange(0, mid);
            let c1 = children.subrange(0, mid + 1);
            let k2 = keys.subrange(mid + 1, n);
            let c2 = children.subrange(mid + 1, n + 1);
            &&& low < s < high
            &&& parts_fit(k1, c1, low, s, order, levels)
            &&& parts_fit(k2, c2, s, high, order, levels)
            &&& forall|q: int| #[trigger]
                held_below(keys, children, q) == if q < s {
                    held_below(k1, c1, q)
                } else {
                    held_below(k2, c2, q)
                }
        }),
{
    let n = keys.len() as int;
    let s = rank(keys[mid].bits);
    let k1 = keys.subrange(0, mid);
    let c1 = children.subrange(0, mid + 1);
    let k2 = keys.subrange(mid + 1, n);
    let c2 = children.subrange(mid + 1, n + 1);
    assert(ascending_keys(k1, low + 1, s)) by {
        assert forall|i: int| 0 <= i < k1.len() implies !not_a_number((#[trigger] k1[i]).bits)
            && low + 1 <= rank(k1[i].bits) < s by {
            assert(k1[i] == keys[i]);
            assert(rank(keys[i].bits) < rank(keys[mid].bits));
        }
        assert forall|i: int, j: int| 0 <= i < j < k1.len() implies rank((#[trigger] k1[i]).bits)
            < rank((#[trigger] k1[j]).bits) by {
            assert(k1[i] == keys[i] && k1[j] == keys[j]);
        }
    }
    assert(ascending_keys(k2, s + 1, high)) by {
        assert forall|i: int| 0 <= i < k2.len() implies !not_a_number((#[trigger] k2[i]).bits) && s
            + 1 <= rank(k2[i].bits) < high by {
            assert(k2[i] == keys[mid + 1 + i]);
            assert(rank(keys[mid].bits) < rank(keys[mid + 1 + i].bits));
        }
        assert forall|i: int, j: int| 0 <= i < j < k2.len() implies rank((#[trigger] k2[i]).bits)
            < rank((#[trigger] k2[j]).bits) by {
            assert(k2[i] == keys[mid + 1 + i] && k2[j] == keys[mid + 1 + j]);
        }
    }
    assert forall|i: int| 0 <= i < c1.len() implies well_formed(
        *(#[trigger] c1[i]),
        child_low(k1, i, low),
        child_high(k1, i, s),
        order,
    ) && depth(*c1[i]) == levels by {
        assert(c1[i] == children[i]);
        if i > 0 {
            assert(k1[i - 1] == keys[i - 1]);
        }
        if i < mid {
            assert(k1[i] == keys[i]);
        }
    }
    assert forall|i: int| 0 <= i < c2.len() implies well_formed(
        *(#[trigger] c2[i]),
        child_low(k2, i, s),
        child_high(k2, i, high),
        order,
    ) && depth(*c2[i]) == levels by {
        assert(c2[i] == children[mid + 1 + i]);
        if i > 0 {
            assert(k2[i - 1] == keys[mid + i]);
        }
        if i < k2.len() {
            assert(k2[i] == keys[mid + 1 + i]);
        }
    }
    assert forall|q: int| #[trigger]
        held_below(keys, children, q) == if q < s {
            held_below(k1, c1, q)
        } else {
            held_below(k2, c2, q)
        } by {
        lemma_count(keys, low + 1, high, q);
        let i = at_most_count(keys, q);
        if q < s {
            assert(i <= mid);
            if i > 0 {
                assert(k1[i - 1] == keys[i - 1]);
            }
            if i < mid {
                assert(k1[i] == keys[i]);
            }
            lemma_count_is(k1, low + 1, s, q, i);
            assert(c1[i] == children[i]);
        } else {
            assert(i > mid);
            let j = i - mid - 1;
            if j > 0 {
                assert(k2[j - 1] == keys[i - 1]);
            }
            if j < k2.len() {
                assert(k2[j] == keys[i]);
            }
            lemma_count_is(k2, s + 1, high, q, j);
            assert(c2[j] == children[i]);
        }
    }
}

proof fn lemma_settled(
    before: Node,
    after: Node,
    split: Option<(F64, Box<Node>)>,
    key: F64,
    value: usize,
    low: int,
    high: int,
    order: int,
    levels: nat,
)
    requires
        before is Internal,
        after is Internal,
        well_formed(before, low, high, order),
        levels == depth(*before->children@[0]),
        Node::settled(
            before->Internal_keys@,
            before->children@,
            after->Internal_keys@,
            after->children@,
            split,
            key,
            value,
            low,
            high,
            order,
            levels,
        ),
    ensures
        Node::inserted(before, after, split, key, value, low, high, order),
{
    let k0 = before->Internal_keys@;
    let c0 = before->children@;
    let k1 = after->Internal_keys@;
    let c1 = after->children@;
    assert forall|q: int| held(before, q) == #[trigger] held_below(k0, c0, q) by {}
    assert forall|q: int| held(after, q) == #[trigger] held_below(k1, c1, q) by {}
    match split {
        None => {
            assert forall|q: int| #[trigger]
                held(after, q) == after_insert(held(before, q), q, key, value) by {
                assert(held(after, q) == held_below(k1, c1, q));
            }
        },
        Some((separator, right)) => {
            let k2 = right->Internal_keys@;
            let c2 = right->children@;
            assert forall|q: int| #[trigger]
                after_insert(held(before, q), q, key, value) == if q < rank(separator.bits) {
                    held(after, q)
                } else {
                    held(*right, q)
                } by {
                assert(held(before, q) == held_below(k0, c0, q));
                assert(held(after, q) == held_below(k1, c1, q));
                assert(held(*right, q) == held_below(k2, c2, q));
                assert(after_insert(held_below(k0, c0, q), q, key, value) == if q < rank(
                    separator.bits,
                ) {
                    held_below(k1, c1, q)
                } else {
                    held_below(k2, c2, q)
                });
            }
        },
    }
}

impl Node {
    /// What an insertion into this subtree leaves: the subtree, and what was
    /// split off on its right.
    spec fn inserted(
        before: Node,
        after: Node,
        split: Option<(F64, Box<Node>)>,
        key: F64,
        value: usize,
        low: int,
        high: int,
        order: int,
    ) -> bool {
        match split {
            None => {
                &&& well_formed(after, low, high, order)
                &&& depth(after) == depth(before)
                &&& forall|q: int| #[trigger]
                    held(after, q) == after_insert(held(before, q), q, key, value)
            },
            Some((separator, right)) => {
                let s = rank(separator.bits);
                &&& !not_a_number(separator.bits)
                &&& low < s < high
                &&& well_formed(after, low, s, order)
                &&& well_formed(*right, s, high, order)
                &&& depth(after) == depth(before)
                &&& depth(*right) == depth(before)
                &&& forall|q: int| #[trigger]
                    after_insert(held(before, q), q, key, value) == if q < s {
                        held(after, q)
                    } else {
                        held(*right, q)
                    }
            },
        }
    }

    /// What an insertion leaves of the parts of an inner node.
    spec fn settled(
        k0: Seq<F64>,
        c0: Seq<Box<Node>>,
        k1: Seq<F64>,
        c1: Seq<Box<Node>>,
        split: Option<(F64, Box<Node>)>,
        key: F64,
        value: usize,
        low: int,
        high: int,
        order: int,
        levels: nat,
    ) -> bool {
        &&& 1 <= k1.len() < order
        &&& match split {
            None => {
                &&& parts_fit(k1, c1, low, high, order, levels)
                &&& forall|q: int| #[trigger]
                    held_below(k1, c1, q) == after_insert(held_below(k0, c0, q), q, key, value)
            },
            Some((separator, right)) => {
                let s = rank(separator.bits);
                &&& !not_a_number(separator.bits)
                &&& low < s < high
                &&& parts_fit(k1, c1, low, s, order, levels)
                &&& match *right {
                    Node::Leaf { .. } => false,
                    Node::Internal { keys, children } => {
                        &&& 1 <= keys@.len() < order
                        &&& parts_fit(keys@, children@, s, high, order, levels)
                        &&& forall|q: int| #[trigger]
                            after_insert(held_below(k0, c0, q), q, key, value) == if q < s {
                                held_below(k1, c1, q)
                            } else {
                                held_below(keys@, children@, q)
                            }
                    },
                }
            },
        }
    }

    /// Inserts a key into the parts of a leaf.
    fn insert_into_leaf(
        keys: &mut Vec<F64>,
        values: &mut Vec<usize>,
        key: F64,
        value: usize,
        order: usize,
        Ghost(low): Ghost<int>,
        Ghost(high): Ghost<int>,
    ) -> (r: Option<(F64, Box<Node>)>)
        requires
            well_formed(
                (Node::Leaf { keys: *old(keys), values: *old(values) }),
                low,
                high,
                order as int,
            ),
            !not_a_number(key.bits),
            low <= rank(key.bits) < high,
            order >= 3,
        ensures
            Node::inserted(
                (Node::Leaf { keys: *old(keys), values: *old(values) }),
                (Node::Leaf { keys: *final(keys), values: *final(values) }),
                r,
                key,
                value,
                low,
                high,
                order as int,
            ),
    {
        let ghost before = Node::Leaf { keys: *keys, values: *values };
        let ghost k0 = keys@;
        let ghost v0 = values@;
        let c = count_at_most(keys, key, Ghost(low), Ghost(high));
        proof {
            lemma_count(k0, low, high, rank(key.bits));
        }
        if c > 0 && keys[c - 1].same_number(key) {
            values.set(c - 1, value);
            proof {
                let after = Node::Leaf { keys: *keys, values: *values };
                assert forall|q: int| #[trigger]
                    held(after, q) == after_insert(held(before, q), q, key, value) by {
                    lemma_leaf_update(k0, v0, key, value, low, high, c - 1, q);
                }
            }
            return None;
        }
        proof {
            assert forall|i: int| 0 <= i < k0.len() implies rank((#[trigger] k0[i]).bits)
                != rank(key.bits) by {
                if i < c - 1 {
                    assert(rank(k0[i].bits) < rank(k0[c - 1].bits));
                }
            }
            lemma_inserted_ascending(k0, key, low, high);
            assert forall|q: int| held_here(
                k0.insert(c as int, key),
                v0.insert(c as int, value),
                q,
            ) == #[trigger] after_insert(held(before, q), q, key, value) by {
                lemma_leaf_insert(k0, v0, key, value, low, high, q);
            }
        }
        keys.insert(c, key);
        values.insert(c, value);
        let ghost k1 = keys@;
        let ghost v1 = values@;
        if keys.len() < order {
            proof {
                let after = Node::Leaf { keys: *keys, values: *values };
                assert forall|q: int| #[trigger]
                    held(after, q) == after_insert(held(before, q), q, key, value) by {}
            }
            return None;
        }
        let mid: usize = keys.len() / 2;
        let right_keys = keys.split_off(mid);
        let right_values = values.split_off(mid);
        let separator = right_keys[0];
        proof {
            lemma_cut_ascending(k1, low, high, 0, mid as int);
            lemma_cut_ascending(k1, low, high, mid as int, k1.len() as int);
            assert(rank(k1[0].bits) < rank(k1[mid as int].bits));
            let after = Node::Leaf { keys: *keys, values: *values };
            let right = Node::Leaf { keys: right_keys, values: right_values };
            assert forall|q: int| #[trigger]
                after_insert(held(before, q), q, key, value) == if q < rank(
                    separator.bits,
                ) {
                    held(after, q)
                } else {
                    held(right, q)
                } by {
                lemma_leaf_split(k1, v1, low, high, mid as int, q);
            }
        }
        Some((separator, Box::new(Node::Leaf { keys: right_keys, values: right_values })))
    }

    /// Puts a changed child back at its place in the parts of an inner node,
    /// and with it what was split off the child.
    fn settle_child(
        keys: &mut Vec<F64>,
        children: &mut Vec<Box<Node>>,
        at: usize,
        child: Box<Node>,
        split: Option<(F64, Box<Node>)>,
        key: F64,
        value: usize,
        order: usize,
        Ghost(low): Ghost<int>,
        Ghost(high): Ghost<int>,
        Ghost(c0): Ghost<Seq<Box<Node>>>,
        Ghost(levels): Ghost<nat>,
    ) -> (r: Option<(F64, Box<Node>)>)
        requires
            parts_fit(old(keys)@, c0, low, high, order as int, levels),
            1 <= old(keys)@.len() < order,
            order >= 3,
            at == at_most_count(old(keys)@, rank(key.bits)),
            at <= old(keys)@.len(),
            old(children)@ == c0.remove(at as int),
            levels == depth(*c0[at as int]),
            Node::inserted(
                *c0[at as int],
                *child,
                split,
                key,
                value,
                child_low(old(keys)@, at as int, low),
                child_high(old(keys)@, at as int, high),
                order as int,
            ),
        ensures
            Node::settled(
                old(keys)@,
                c0,
                final(keys)@,
                final(children)@,
                r,
                key,
                value,
                low,
                high,
                order as int,
                levels,
            ),
    {
        let ghost k0 = keys@;
        let ghost c1 = child;
        children.insert(at, child);
        assert(children@ == c0.update(at as int, c1));
        match split {
            None => {
                proof {
                    lemma_child_changed(
                        k0,
                        c0,
                        c1,
                        key,
                        value,
                        low,
                        high,
                        order as int,
                        levels,
                    );
                }
                None
            },
            Some((separator, right)) => {
                proof {
                    lemma_child_split(
                        k0,
                        c0,
                        c1,
                        separator,
                        right,
                        key,
                        value,
                        low,
                        high,
                        order as int,
                        levels,
                    );
                }
                keys.insert(at, separator);
                children.insert(at + 1, right);
                let ghost k2 = keys@;
                let ghost c2 = children@;
                assert(k2 == k0.insert(at as int, separator));
                assert(c2 == c0.update(at as int, c1).insert(at + 1, right));
                if keys.len() < order {
                    return None;
                }
                let mid: usize = keys.len() / 2;
                let promoted = keys[mid];
                let right_keys = keys.split_off(mid + 1);
                keys.truncate(mid);
                let right_children = children.split_off(mid + 1);
                proof {
                    lemma_inner_split(
                        k2,
                        c2,
                        low,
                        high,
                        order as int,
                        levels,
                        mid as int,
                    );
                    assert(keys@ == k2.subrange(0, mid as int));
                    assert forall|q: int| #[trigger]
                        after_insert(held_below(k0, c0, q), q, key, value) == if q < rank(
                            promoted.bits,
                        ) {
                            held_below(keys@, children@, q)
                        } else {
                            held_below(right_keys@, right_children@, q)
                        } by {
                        assert(held_below(k2, c2, q) == after_insert(
                            held_below(k0, c0, q),
                            q,
                            key,
                            value,
                        ));
                        assert(held_below(k2, c2, q) == if q < rank(promoted.bits) {
                            held_below(keys@, children@, q)
                        } else {
                            held_below(right_keys@, right_children@, q)
                        });
                    }
                }
                Some(
                    (
                        promoted,
                        Box::new(
                            Node::Internal { keys: right_keys, children: right_children },
                        ),
                    ),
                )
            },
        }
    }

    /// Inserts a key into this subtree. What comes back is what was split off
    /// on its right, with the separator before it.
    fn insert(
        &mut self,
        key: F64,
        value: usize,
        order: usize,
        Ghost(low): Ghost<int>,
        Ghost(high): Ghost<int>,
    ) -> (r: Option<(F64, Box<Node>)>)
        requires
            well_formed(*old(self), low, high, order as int),
            !not_a_number(key.bits),
            low <= rank(key.bits) < high,
            order >= 3,
        ensures
            Node::inserted(*old(self), *final(self), r, key, value, low, high, order as int),
        decreases *old(self),
    {
        let ghost before = *self;
        match self {
            Node::Leaf { keys, values } => {
                Node::insert_into_leaf(keys, values, key, value, order, Ghost(low), Ghost(high))
            },
            Node::Internal { keys, children } => {
                let ghost k0 = keys@;
                let ghost c0 = children@;
                let ghost levels = depth(*c0[0]);
                let at = count_at_most(keys, key, Ghost(low + 1), Ghost(high));
                proof {
                    lemma_count(k0, low + 1, high, rank(key.bits));
                    assert(parts_fit(k0, c0, low, high, order as int, levels));
                }
                let mut child = children.remove(at);
                let split = child.insert(
                    key,
                    value,
                    order,
                    Ghost(child_low(k0, at as int, low)),
                    Ghost(child_high(k0, at as int, high)),
                );
                let r = Node::settle_child(
                    keys,
                    children,
                    at,
                    child,
                    split,
                    key,
                    value,
                    order,
                    Ghost(low),
                    Ghost(high),
                    Ghost(c0),
                    Ghost(levels),
                );
                proof {
                    let after = Node::Internal { keys: *keys, children: *children };
                    lemma_settled(before, after, r, key, value, low, high, order as int, levels);
                }
                r
            },
        }
    }

    fn height(&self) -> (r: usize)
        requires
            depth(*self) <= usize::MAX,
        ensures
            r == depth(*self),
        decreases *self,
    {
        match self {
            Node::Leaf { .. } => 1,
            Node::Internal { keys, children } => {
                if children.len() == 0 {
                    1
                } else {
                    1 + children[0].height()
                }
            },
        }
    }

    fn search(&self, key: F64, Ghost(low): Ghost<int>, Ghost(high): Ghost<int>, Ghost(order): Ghost<
        int,
    >) -> (r: Option<usize>)
        requires
            well_formed(*self, low, high, order),
            !not_a_number(key.bits),
        ensures
            r == match held(*self, rank(key.bits)) {
                Some((_, v)) => Some(v),
                None => None,
            },
        decreases *self,
    {
        match self {
            Node::Leaf { keys, values } => {
                let c = count_at_most(keys, key, Ghost(low), Ghost(high));
                proof {
                    lemma_count(keys@, low, high, rank(key.bits));
                }
                if c > 0 && keys[c - 1].same_number(key) {
                    proof {
                        lemma_held_here(keys@, values@, low, high, c - 1);
                    }
                    Some(values[c - 1])
                } else {
                    proof {
                        assert forall|i: int| 0 <= i < keys@.len() implies rank(
                            (#[trigger] keys@[i]).bits,
                        ) != rank(key.bits) by {
                            if i < c - 1 {
                                assert(rank(keys@[i].bits) < rank(keys@[c - 1].bits));
                            }
                        }
                    }
                    None
                }
            },
            Node::Internal { keys, children } => {
                let i = count_at_most(keys, key, Ghost(low + 1), Ghost(high));
                children[i].search(
                    key,
                    Ghost(child_low(keys@, i as int, low)),
                    Ghost(child_high(keys@, i as int, high)),
                    Ghost(order),
                )
            },
        }
    }

    /// Appends the entries of this subtree whose keys lie in `min..=max`.
    fn range_search(
        &self,
        min: F64,
        max: F64,
        out: &mut Vec<(F64, usize)>,
        Ghost(low): Ghost<int>,
        Ghost(high): Ghost<int>,
        Ghost(order): Ghost<int>,
    )
        requires
            well_formed(*self, low, high, order),
            !not_a_number(min.bits),
            !not_a_number(max.bits),
        ensures
            exists|found: Seq<(F64, usize)>| #[trigger]
                lists_held(found, *self, rank(min.bits), rank(max.bits), low, high)
                    && final(out)@ == old(out)@ + found,
        decreases *self, 0nat,
    {
        let ghost before = out@;
        match self {
            Node::Leaf { keys, values } => {
                let ghost mut found: Seq<(F64, usize)> = Seq::empty();
                let mut i: usize = 0;
                while i < keys.len()
                    invariant
                        i <= keys@.len(),
                        keys@.len() == values@.len(),
                        ascending_keys(keys@, low, high),
                        !not_a_number(min.bits),
                        !not_a_number(max.bits),
                        out@ == before + found,
                        lists_leaf(
                            found,
                            keys@,
                            values@,
                            i as int,
                            rank(min.bits),
                            rank(max.bits),
                        ),
                    decreases keys@.len() - i,
                {
                    let ghost f0 = found;
                    if min.at_most(keys[i]) && keys[i].at_most(max) {
                        out.push((keys[i], values[i]));
                        proof {
                            found = f0.push((keys@[i as int], values@[i as int]));
                        }
                    }
                    proof {
                        lemma_lists_leaf_step(
                            f0,
                            found,
                            keys@,
                            values@,
                            i as int,
                            rank(min.bits),
                            rank(max.bits),
                            low,
                            high,
                        );
                    }
                    i = i + 1;
                }
                proof {
                    lemma_lists_leaf(
                        found,
                        *self,
                        rank(min.bits),
                        rank(max.bits),
                        low,
                        high,
                        order,
                    );
                }
            },
            Node::Internal { keys, children } => {
                let ghost mut found: Seq<(F64, usize)> = Seq::empty();
                let mut i: usize = 0;
                while i < children.len()
                    invariant
                        i <= children@.len(),
                        *self == (Node::Internal { keys: *keys, children: *children }),
                        well_formed(*self, low, high, order),
                        !not_a_number(min.bits),
                        !not_a_number(max.bits),
                        out@ == before + found,
                        lists_below(
                            found,
                            keys@,
                            children@,
                            i as int,
                            rank(min.bits),
                            rank(max.bits),
                            low,
                            high,
                        ),
                    decreases children@.len() - i,
                {
                    let ghost f0 = found;
                    let ghost lo = child_low(keys@, i as int, low);
                    let ghost hi = child_high(keys@, i as int, high);
                    let child_min = if i == 0 {
                        F64 { bits: NEGATIVE_INFINITY }
                    } else {
                        keys[i - 1]
                    };
                    let child_max = if i == keys.len() {
                        F64 { bits: INFINITY }
                    } else {
                        keys[i]
                    };
                    let ghost mut part: Seq<(F64, usize)> = Seq::empty();
                    if !child_max.less(min) && !max.less(child_min) {
                        let ghost o = out@;
                        children[i].range_search(min, max, out, Ghost(lo), Ghost(hi), Ghost(order));
                        proof {
                            part = choose|part: Seq<(F64, usize)>| #[trigger]
                                lists_held(
                                    part,
                                    *children@[i as int],
                                    rank(min.bits),
                                    rank(max.bits),
                                    lo,
                                    hi,
                                ) && out@ == o + part;
                            assert(out@ == before + (f0 + part));
                        }
                    } else {
                        proof {
                            lemma_nothing_held(
                                *children@[i as int],
                                rank(min.bits),
                                rank(max.bits),
                                lo,
                                hi,
                                order,
                            );
                            assert(f0 + part == f0);
                        }
                    }
                    proof {
                        found = f0 + part;
                        lemma_lists_below_step(
                            f0,
                            part,
                            keys@,
                            children@,
                            i as int,
                            rank(min.bits),
                            rank(max.bits),
                            low,
                            high,
                            order,
                        );
                    }
                    i = i + 1;
                }
                proof {
                    lemma_lists_below(
                        found,
                        *self,
                        rank(min.bits),
                        rank(max.bits),
                        low,
                        high,
                        order,
                    );
                }
            },
        }
    }
}

// ---- listing -------------------------------------------------------------------------

/// Entries whose keys ascend.
pub open spec fn ascending_entries(found: Seq<(F64, usize)>) -> bool {
    forall|i: int, j: int|
        0 <= i < j < found.len() ==> rank((#[trigger] found[i]).0.bits) < rank(
            (#[trigger] found[j]).0.bits,
        )
}

/// A list of what a subtree holds in `min..=max`, in ascending order.
pub open spec fn lists_held(
    found: Seq<(F64, usize)>,
    n: Node,
    min: int,
    max: int,
    low: int,
    high: int,
) -> bool {
    &&& ascending_entries(found)
    &&& forall|i: int|
        0 <= i < found.len() ==> {
            let r = rank((#[trigger] found[i]).0.bits);
            &&& min <= r <= max
            &&& low <= r < high
            &&& held(n, r) == Some(found[i])
        }
    &&& forall|r: int|
        min <= r <= max && low <= r < high && (#[trigger] held(n, r)) is Some ==> found.contains(
            held(n, r)->0,
        )
}

spec fn lists_leaf(
    found: Seq<(F64, usize)>,
    keys: Seq<F64>,
    values: Seq<usize>,
    n: int,
    min: int,
    max: int,
) -> bool {
    &&& ascending_entries(found)
    &&& forall|i: int|
        0 <= i < found.len() ==> exists|k: int|
            0 <= k < n && found[i] == ((#[trigger] keys[k]), values[k]) && min <= rank(
                (#[trigger] found[i]).0.bits,
            ) <= max
    &&& forall|k: int|
        0 <= k < n && min <= rank((#[trigger] keys[k]).bits) <= max ==> found.contains(
            (keys[k], values[k]),
        )
}

proof fn lemma_lists_leaf_step(
    f0: Seq<(F64, usize)>,
    found: Seq<(F64, usize)>,
    keys: Seq<F64>,
    values: Seq<usize>,
    n: int,
    min: int,
    max: int,
    low: int,
    high: int,
)
    requires
        0 <= n < keys.len(),
        ascending_keys(keys, low, high),
        lists_leaf(f0, keys, values, n, min, max),
        found == (if min <= rank(keys[n].bits) <= max { f0.push((keys[n], values[n])) } else { f0 }),
    ensures
        lists_leaf(found, keys, values, n + 1, min, max),
{
    assert forall|i: int, j: int| 0 <= i < j < found.len() implies rank(
        (#[trigger] found[i]).0.bits,
    ) < rank((#[trigger] found[j]).0.bits) by {
        if j < f0.len() {
            assert(f0[i] == found[i] && f0[j] == found[j]);
        } else {
            assert(f0[i] == found[i]);
            let k = choose|k: int|
                0 <= k < n && f0[i] == ((#[trigger] keys[k]), values[k]) && min <= rank(
                    f0[i].0.bits,
                ) <= max;
            assert(rank(keys[k].bits) < rank(keys[n].bits));
        }
    }
    assert forall|i: int| 0 <= i < found.len() implies exists|k: int|
        0 <= k < n + 1 && found[i] == ((#[trigger] keys[k]), values[k]) && min <= rank(
            (#[trigger] found[i]).0.bits,
        ) <= max by {
        if i < f0.len() {
            assert(f0[i] == found[i]);
            let k = choose|k: int|
                0 <= k < n && f0[i] == ((#[trigger] keys[k]), values[k]) && min <= rank(
                    f0[i].0.bits,
                ) <= max;
            assert(found[i] == (keys[k], values[k]));
        } else {
            assert(found[i] == (keys[n], values[n]));
        }
    }
    assert forall|k: int| 0 <= k < n + 1 && min <= rank((#[trigger] keys[k]).bits)
        <= max implies found.contains((keys[k], values[k])) by {
        if k < n {
            assert(f0.contains((keys[k], values[k])));
            let i = choose|i: int| 0 <= i < f0.len() && f0[i] == (keys[k], values[k]);
            assert(found[i] == (keys[k], values[k]));
        } else {
            assert(found[f0.len() as int] == (keys[k], values[k]));
        }
    }
}

proof fn lemma_lists_leaf(
    found: Seq<(F64, usize)>,
    n: Node,
    min: int,
    max: int,
    low: int,
    high: int,
    order: int,
)
    requires
        n is Leaf,
        well_formed(n, low, high, order),
        lists_leaf(found, n->Leaf_keys@, n->values@, n->Leaf_keys@.len() as int, min, max),
    ensures
        lists_held(found, n, min, max, low, high),
{
    let keys = n->Leaf_keys@;
    let values = n->values@;
    assert forall|i: int| 0 <= i < found.len() implies {
        let r = rank((#[trigger] found[i]).0.bits);
        &&& min <= r <= max
        &&& low <= r < high
        &&& held(n, r) == Some(found[i])
    } by {
        let k = choose|k: int|
            0 <= k < keys.len() && found[i] == ((#[trigger] keys[k]), values[k]) && min <= rank(
                found[i].0.bits,
            ) <= max;
        lemma_held_here(keys, values, low, high, k);
    }
    assert forall|r: int| min <= r <= max && low <= r < high && (#[trigger] held(n, r))
        is Some implies found.contains(held(n, r)->0) by {
        let k = choose|k: int| 0 <= k < keys.len() && rank((#[trigger] keys[k]).bits) == r;
        assert(held(n, r) == Some((keys[k], values[k])));
        assert(found.contains((keys[k], values[k])));
    }
}

proof fn lemma_nothing_held(n: Node, min: int, max: int, low: int, high: int, order: int)
    requires
        well_formed(n, low, high, order),
        max < low || high <= min,
    ensures
        lists_held(Seq::empty(), n, min, max, low, high),
{
}

spec fn lists_below(
    found: Seq<(F64, usize)>,
    keys: Seq<F64>,
    children: Seq<Box<Node>>,
    n: int,
    min: int,
    max: int,
    low: int,
    high: int,
) -> bool {
    let top = if n <= 0 { low } else { child_high(keys, n - 1, high) };
    &&& ascending_entries(found)
    &&& forall|i: int|
        0 <= i < found.len() ==> {
            let r = rank((#[trigger] found[i]).0.bits);
            &&& min <= r <= max
            &&& low <= r < top
            &&& held_below(keys, children, r) == Some(found[i])
        }
    &&& forall|r: int|
        min <= r <= max && low <= r < top && (#[trigger] held_below(keys, children, r)) is Some
            ==> found.contains(held_below(keys, children, r)->0)
}

proof fn lemma_lists_below_step(
    f0: Seq<(F64, usize)>,
    part: Seq<(F64, usize)>,
    keys: Seq<F64>,
    children: Seq<Box<Node>>,
    n: int,
    min: int,
    max: int,
    low: int,
    high: int,
    order: int,
)
    requires
        0 <= n < children.len(),
        children.len() == keys.len() + 1,
        keys.len() >= 1,
        ascending_keys(keys, low + 1, high),
        lists_below(f0, keys, children, n, min, max, low, high),
        lists_held(
            part,
            *children[n],
            min,
            max,
            child_low(keys, n, low),
            child_high(keys, n, high),
        ),
    ensures
        lists_below(f0 + part, keys, children, n + 1, min, max, low, high),
{
    let found = f0 + part;
    let lo = child_low(keys, n, low);
    let hi = child_high(keys, n, high);
    let top = if n <= 0 { low } else { child_high(keys, n - 1, high) };
    assert(top == lo);
    assert(low <= lo);
    assert(lo <= hi) by {
        if 0 < n < keys.len() {
            assert(rank(keys[n - 1].bits) < rank(keys[n].bits));
        } else if n > 0 {
            assert(rank(keys[n - 1].bits) < high);
        } else if n < keys.len() {
            assert(rank(keys[n].bits) >= low + 1);
        }
    }
    assert forall|r: int| lo <= r < hi implies #[trigger] held_below(keys, children, r) == held(
        *children[n],
        r,
    ) by {
        lemma_count_is(keys, low + 1, high, r, n);
    }
    assert forall|i: int| 0 <= i < found.len() implies {
        let r = rank((#[trigger] found[i]).0.bits);
        &&& min <= r <= max
        &&& low <= r < hi
        &&& held_below(keys, children, r) == Some(found[i])
    } by {
        if i < f0.len() {
            assert(found[i] == f0[i]);
        } else {
            let k = i - f0.len();
            assert(found[i] == part[k]);
            let r = rank(part[k].0.bits);
            assert(held_below(keys, children, r) == held(*children[n], r));
        }
    }
    assert forall|i: int, j: int| 0 <= i < j < found.len() implies rank(
        (#[trigger] found[i]).0.bits,
    ) < rank((#[trigger] found[j]).0.bits) by {
        if j < f0.len() {
            assert(found[i] == f0[i] && found[j] == f0[j]);
        } else if i < f0.len() {
            assert(found[i] == f0[i] && found[j] == part[j - f0.len()]);
        } else {
            assert(found[i] == part[i - f0.len()] && found[j] == part[j - f0.len()]);
        }
    }
    assert forall|r: int| min <= r <= max && low <= r < hi && (#[trigger] held_below(
        keys,
        children,
        r,
    )) is Some implies found.contains(held_below(keys, children, r)->0) by {
        let e = held_below(keys, children, r)->0;
        if r < lo {
            assert(f0.contains(e));
            let i = choose|i: int| 0 <= i < f0.len() && f0[i] == e;
            assert(found[i] == e);
        } else {
            assert(held(*children[n], r) is Some);
            assert(part.contains(e));
            let i = choose|i: int| 0 <= i < part.len() && part[i] == e;
            assert(found[f0.len() + i] == e);
        }
    }
}

proof fn lemma_lists_below(
    found: Seq<(F64, usize)>,
    n: Node,
    min: int,
    max: int,
    low: int,
    high: int,
    order: int,
)
    requires
        n is Internal,
        well_formed(n, low, high, order),
        lists_below(
            found,
            n->Internal_keys@,
            n->children@,
            n->children@.len() as int,
            min,
            max,
            low,
            high,
        ),
    ensures
        lists_held(found, n, min, max, low, high),
{
    let keys = n->Internal_keys@;
    let children = n->children@;
    assert forall|r: int| #[trigger] held(n, r) == held_below(keys, children, r) by {}
    assert forall|i: int| 0 <= i < found.len() implies {
        let r = rank((#[trigger] found[i]).0.bits);
        &&& min <= r <= max
        &&& low <= r < high
        &&& held(n, r) == Some(found[i])
    } by {
        let r = rank(found[i].0.bits);
        assert(held(n, r) == held_below(keys, children, r));
    }
    assert forall|r: int| min <= r <= max && low <= r < high && (#[trigger] held(n, r))
        is Some implies found.contains(held(n, r)->0) by {
        assert(held_below(keys, children, r) is Some);
    }
}

// ---- the tree ------------------------------------------------------------------------

/// A B+ tree.
pub struct BTree {
    pub root: Box<Node>,
    /// How many keys a node holds before it splits.
    pub order: usize,
}

/// Below every rank.
pub open spec fn lowest() -> int {
    -0x1_0000_0000_0000_0000
}

/// Above every rank.
pub open spec fn highest() -> int {
    0x1_0000_0000_0000_0000
}

impl View for BTree {
    type V = Map<int, (F64, usize)>;

    /// The entries, each under the rank of its key.
    open spec fn view(&self) -> Map<int, (F64, usize)> {
        Map::new(
            |r: int| lowest() <= r < highest() && held(*self.root, r) is Some,
            |r: int| held(*self.root, r)->0,
        )
    }
}

impl BTree {
    pub open spec fn wf(&self) -> bool {
        &&& self.order >= 3
        &&& well_formed(*self.root, lowest(), highest(), self.order as int)
    }

    /// An empty tree. An order below three counts as three.
    pub fn new(order: usize) -> (r: Self)
        ensures
            r.wf(),
            r@ == Map::<int, (F64, usize)>::empty(),
            r.order == (if order < 3 { 3 } else { order }),
            depth(*r.root) == 1,
    {
        let r = BTree {
            root: Box::new(Node::Leaf { keys: Vec::new(), values: Vec::new() }),
            order: if order < 3 {
                3
            } else {
                order
            },
        };
        assert(r@ =~= Map::<int, (F64, usize)>::empty());
        r
    }

    /// The value of a key.
    pub fn search(&self, key: F64) -> (r: Option<usize>)
        requires
            self.wf(),
            !not_a_number(key.bits),
        ensures
            r == (if self@.dom().contains(rank(key.bits)) {
                Some(self@[rank(key.bits)].1)
            } else {
                None
            }),
    {
        self.root.search(key, Ghost(lowest()), Ghost(highest()), Ghost(self.order as int))
    }

    /// Gives a key a value: a key that is there keeps its place and gets the
    /// new value.
    pub fn insert(&mut self, key: F64, value: usize) -> (r: Result<(), DatabaseError>)
        requires
            old(self).wf(),
            !not_a_number(key.bits),
        ensures
            r is Ok,
            final(self).wf(),
            final(self).order == old(self).order,
            final(self)@ == old(self)@.insert(
                rank(key.bits),
                if old(self)@.dom().contains(rank(key.bits)) {
                    (old(self)@[rank(key.bits)].0, value)
                } else {
                    (key, value)
                },
            ),
            depth(*old(self).root) <= depth(*final(self).root) <= depth(*old(self).root) + 1,
    {
        let ghost before = *self.root;
        let mut root = Box::new(Node::Leaf { keys: Vec::new(), values: Vec::new() });
        std::mem::swap(&mut root, &mut self.root);
        let split = root.insert(key, value, self.order, Ghost(lowest()), Ghost(highest()));
        match split {
            None => {
                self.root = root;
                proof {
                    assert forall|q: int| #[trigger]
                        held(*self.root, q) == after_insert(held(before, q), q, key, value) by {}
                }
            },
            Some((separator, right)) => {
                let ghost left = *root;
                let ghost behind = *right;
                let mut keys: Vec<F64> = Vec::new();
                keys.push(separator);
                let mut children: Vec<Box<Node>> = Vec::new();
                children.push(root);
                children.push(right);
                self.root = Box::new(Node::Internal { keys, children });
                proof {
                    let k = self.root->Internal_keys@;
                    let c = self.root->children@;
                    assert(ascending_keys(k, lowest() + 1, highest()));
                    assert forall|i: int| 0 <= i < c.len() implies well_formed(
                        *(#[trigger] c[i]),
                        child_low(k, i, lowest()),
                        child_high(k, i, highest()),
                        self.order as int,
                    ) && depth(*c[i]) == depth(*c[0]) by {
                        assert(i == 0 || i == 1);
                    }
                    assert forall|q: int| #[trigger]
                        held(*self.root, q) == after_insert(held(before, q), q, key, value) by {
                        assert(after_insert(held(before, q), q, key, value) == if q < rank(
                            separator.bits,
                        ) {
                            held(left, q)
                        } else {
                            held(behind, q)
                        });
                        lemma_count_is(
                            k,
                            lowest() + 1,
                            highest(),
                            q,
                            if q < rank(separator.bits) {
                                0
                            } else {
                                1
                            },
                        );
                    }
                }
            },
        }
        proof {
            assert(self@ =~= old(self)@.insert(
                rank(key.bits),
                if old(self)@.dom().contains(rank(key.bits)) {
                    (old(self)@[rank(key.bits)].0, value)
                } else {
                    (key, value)
                },
            ));
        }
        Ok(())
    }

    /// The entries whose keys lie in `min..=max`, in ascending order.
    pub fn range_search(&self, min: F64, max: F64) -> (r: Vec<(F64, usize)>)
        requires
            self.wf(),
        ensures
            ascending_entries(r@),
            forall|i: int|
                0 <= i < r@.len() ==> {
                    let k = rank((#[trigger] r@[i]).0.bits);
                    &&& self@.dom().contains(k)
                    &&& self@[k] == r@[i]
                    &&& rank(min.bits) <= k <= rank(max.bits)
                },
            is_at_most(min.bits, max.bits) ==> forall|k: int| #[trigger]
                self@.dom().contains(k) && rank(min.bits) <= k <= rank(max.bits) ==> r@.contains(
                    self@[k],
                ),
            !is_at_most(min.bits, max.bits) ==> r@.len() == 0,
    {
        let mut out: Vec<(F64, usize)> = Vec::new();
        if min.at_most(max) {
            self.root.range_search(
                min,
                max,
                &mut out,
                Ghost(lowest()),
                Ghost(highest()),
                Ghost(self.order as int),
            );
            proof {
                let found = choose|found: Seq<(F64, usize)>| #[trigger]
                    lists_held(
                        found,
                        *self.root,
                        rank(min.bits),
                        rank(max.bits),
                        lowest(),
                        highest(),
                    ) && out@ == Seq::<(F64, usize)>::empty() + found;
                assert(out@ == found);
            }
        }
        out
    }

    /// The number of levels.
    pub fn height(&self) -> (r: usize)
        requires
            depth(*self.root) <= usize::MAX,
        ensures
            r == depth(*self.root),
    {
        self.root.height()
    }
}

/// What was inserted last is what a search finds, and the other keys keep what
/// they had.
pub proof fn reading_after_inserting(
    before: Map<int, (F64, usize)>,
    after: Map<int, (F64, usize)>,
    key: F64,
    value: usize,
    other: F64,
)
    requires
        after == before.insert(
            rank(key.bits),
            if before.dom().contains(rank(key.bits)) {
                (before[rank(key.bits)].0, value)
            } else {
                (key, value)
            },
        ),
    ensures
        after.dom().contains(rank(key.bits)) && after[rank(key.bits)].1 == value,
        rank(other.bits) != rank(key.bits) ==> (after.dom().contains(rank(other.bits))
            <==> before.dom().contains(rank(other.bits))) && after[rank(other.bits)]
            == before[rank(other.bits)],
{
}

} // verus!
