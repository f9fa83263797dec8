//! Indexes on columns other than the primary key: for each value, the ids of
//! the rows that were given it.
//!
//! An index only grows. What it yields are candidates, which may have been
//! changed or deleted since.

use vstd::prelude::*;
use crate::execution::operators::{Datum, Value};
use crate::float::{int_order, is_equal, order_integers, total_rank, Order, F64};
use crate::text::{less, same, text_less, text_order_is_total, text_order_is_transitive};

verus! {

/// The place of a kind of value among the kinds.
pub open spec fn variant_rank(d: Datum) -> int {
    match d {
        Datum::Null => 0,
        Datum::Boolean(_) => 1,
        Datum::Integer(_) => 2,
        Datum::Float(_) => 3,
        Datum::Text(_) => 4,
    }
}

/// How two values stand in an index. Values of one kind are ordered by what
/// they hold, floats by their total order; values of different kinds by their
/// kinds.
pub open spec fn key_order(a: Datum, b: Datum) -> Order {
    match (a, b) {
        (Datum::Integer(x), Datum::Integer(y)) => int_order(x as int, y as int),
        (Datum::Float(x), Datum::Float(y)) => int_order(total_rank(x), total_rank(y)),
        (Datum::Text(x), Datum::Text(y)) => if x == y {
            Order::Equal
        } else if text_less(x, y) {
            Order::Less
        } else {
            Order::Greater
        },
        (Datum::Boolean(x), Datum::Boolean(y)) => int_order(
            if x { 1 } else { 0 },
            if y { 1 } else { 0 },
        ),
        (Datum::Null, Datum::Null) => Order::Equal,
        _ => int_order(variant_rank(a), variant_rank(b)),
    }
}

/// The order of an index is total: two values are equal in it only where they
/// are the same, and otherwise one is less.
pub proof fn key_order_is_total(a: Datum, b: Datum)
    ensures
        key_order(a, b) == Order::Equal <==> a == b,
        key_order(b, a) == key_order(a, b).flipped(),
{
    match (a, b) {
        (Datum::Text(x), Datum::Text(y)) => {
            text_order_is_total(x, y);
        },
        _ => {},
    }
}

/// What is less than something less is less.
pub proof fn key_order_is_transitive(a: Datum, b: Datum, c: Datum)
    requires
        key_order(a, b) == Order::Less,
        key_order(b, c) == Order::Less,
    ensures
        key_order(a, c) == Order::Less,
{
    match (a, b, c) {
        (Datum::Text(x), Datum::Text(y), Datum::Text(z)) => {
            text_order_is_transitive(x, y, z);
            text_order_is_total(x, z);
        },
        _ => {},
    }
}

fn order_keys(a: &Value, b: &Value) -> (r: Order)
    ensures
        r == key_order(a@, b@),
{
    match (a, b) {
        (Value::Integer(x), Value::Integer(y)) => order_integers(*x, *y),
        (Value::Float(x), Value::Float(y)) => x.total_order(*y),
        (Value::String(x), Value::String(y)) => if same(x.as_str(), y.as_str()) {
            Order::Equal
        } else if less(x.as_str(), y.as_str()) {
            Order::Less
        } else {
            Order::Greater
        },
        (Value::Boolean(x), Value::Boolean(y)) => order_integers(
            if *x {
                1
            } else {
                0
            },
            if *y {
                1
            } else {
                0
            },
        ),
        (Value::Null, Value::Null) => Order::Equal,
        _ => order_integers(rank_of(a), rank_of(b)),
    }
}

/// The rank of a value's kind.
pub fn rank_of(v: &Value) -> (r: i64)
    ensures
        r == variant_rank(v@),
{
    match v {
        Value::Null => 0,
        Value::Boolean(_) => 1,
        Value::Integer(_) => 2,
        Value::Float(_) => 3,
        Value::String(_) => 4,
    }
}

/// An end of a range.
#[derive(Debug)]
pub enum Bound {
    Included(Value),
    Excluded(Value),
    Unbounded,
}

/// An end of a range as contracts speak of it.
pub enum End {
    Included(Datum),
    Excluded(Datum),
    Unbounded,
}

impl View for Bound {
    type V = End;

    open spec fn view(&self) -> End {
        match *self {
            Bound::Included(v) => End::Included(v@),
            Bound::Excluded(v) => End::Excluded(v@),
            Bound::Unbounded => End::Unbounded,
        }
    }
}

/// Whether a value lies above the lower end of a range.
pub open spec fn above(d: Datum, lower: End) -> bool {
    match lower {
        End::Included(x) => key_order(d, x) != Order::Less,
        End::Excluded(x) => key_order(d, x) == Order::Greater,
        End::Unbounded => true,
    }
}

/// Whether a value lies below the upper end of a range.
pub open spec fn beneath(d: Datum, upper: End) -> bool {
    match upper {
        End::Included(x) => key_order(d, x) != Order::Greater,
        End::Excluded(x) => key_order(d, x) == Order::Less,
        End::Unbounded => true,
    }
}

/// The row ids of each value that has been indexed, by ascending value.
#[derive(Debug)]
pub struct SecondaryIndex {
    pub entries: Vec<(Value, Vec<u64>)>,
}

/// The entries of an index.
pub open spec fn index_entries(v: Seq<(Value, Vec<u64>)>) -> Seq<(Datum, Seq<u64>)> {
    v.map_values(|e: (Value, Vec<u64>)| (e.0@, e.1@))
}

impl View for SecondaryIndex {
    type V = Seq<(Datum, Seq<u64>)>;

    open spec fn view(&self) -> Seq<(Datum, Seq<u64>)> {
        index_entries(self.entries@)
    }
}

/// Each value is less than those behind it.
pub open spec fn by_value(entries: Seq<(Datum, Seq<u64>)>) -> bool {
    forall|i: int, j: int|
        0 <= i < j < entries.len() ==> key_order(
            (#[trigger] entries[i]).0,
            (#[trigger] entries[j]).0,
        ) == Order::Less
}

/// How many entries, from the `i`-th on, have values less than `d`, counted up
/// to the first that has not.
pub open spec fn entry_place(entries: Seq<(Datum, Seq<u64>)>, d: Datum, i: int) -> int
    decreases entries.len() - i,
{
    if 0 <= i < entries.len() && key_order(entries[i].0, d) == Order::Less {
        entry_place(entries, d, i + 1)
    } else {
        i
    }
}

/// The entries with one more row under a value.
pub open spec fn entered(entries: Seq<(Datum, Seq<u64>)>, d: Datum, row_id: u64) -> Seq<
    (Datum, Seq<u64>),
> {
    let p = entry_place(entries, d, 0);
    if 0 <= p < entries.len() && entries[p].0 == d {
        entries.update(p, (d, entries[p].1.push(row_id)))
    } else {
        entries.insert(p, (d, seq![row_id]))
    }
}

/// The row ids of a value.
pub open spec fn rows_with(entries: Seq<(Datum, Seq<u64>)>, d: Datum) -> Seq<u64> {
    let p = entry_place(entries, d, 0);
    if 0 <= p < entries.len() && entries[p].0 == d { entries[p].1 } else { Seq::empty() }
}

/// The row ids of the values in a range, of the entries from the `i`-th on.
pub open spec fn rows_between(
    entries: Seq<(Datum, Seq<u64>)>,
    lower: End,
    upper: End,
    i: int,
) -> Seq<u64>
    decreases entries.len() - i,
{
    if 0 <= i < entries.len() {
        let rest = rows_between(entries, lower, upper, i + 1);
        if above(entries[i].0, lower) && beneath(entries[i].0, upper) {
            entries[i].1 + rest
        } else {
            rest
        }
    } else {
        Seq::empty()
    }
}

pub(crate) proof fn lemma_entry_place(entries: Seq<(Datum, Seq<u64>)>, d: Datum, i: int)
    requires
        0 <= i <= entries.len(),
    ensures
        i <= entry_place(entries, d, i) <= entries.len(),
        forall|k: int|
            i <= k < entry_place(entries, d, i) ==> key_order((#[trigger] entries[k]).0, d)
                == Order::Less,
        entry_place(entries, d, i) < entries.len() ==> key_order(
            entries[entry_place(entries, d, i)].0,
            d,
        ) != Order::Less,
    decreases entries.len() - i,
{
    if i < entries.len() && key_order(entries[i].0, d) == Order::Less {
        lemma_entry_place(entries, d, i + 1);
    }
}

proof fn lemma_not_less_beyond(entries: Seq<(Datum, Seq<u64>)>, d: Datum, i: int, j: int)
    requires
        by_value(entries),
        0 <= i < j < entries.len(),
        key_order(entries[i].0, d) != Order::Less,
    ensures
        key_order(entries[j].0, d) == Order::Greater,
{
    key_order_is_total(entries[i].0, d);
    key_order_is_total(entries[j].0, d);
    if entries[i].0 != d {
        key_order_is_transitive(d, entries[i].0, entries[j].0);
    }
    key_order_is_total(d, entries[j].0);
}

/// Entering a row keeps the values in order.
pub proof fn entering_keeps_the_order(entries: Seq<(Datum, Seq<u64>)>, d: Datum, row_id: u64)
    requires
        by_value(entries),
    ensures
        by_value(entered(entries, d, row_id)),
{
    lemma_entry_place(entries, d, 0);
    let p = entry_place(entries, d, 0);
    let after = entered(entries, d, row_id);
    assert forall|i: int, j: int| 0 <= i < j < after.len() implies key_order(
        (#[trigger] after[i]).0,
        (#[trigger] after[j]).0,
    ) == Order::Less by {
        if p < entries.len() && entries[p].0 == d {
            assert(after[i].0 == entries[i].0 && after[j].0 == entries[j].0);
        } else {
            let x = if i < p { i } else { i - 1 };
            let y = if j < p { j } else { j - 1 };
            if i != p {
                assert(after[i] == entries[x]);
            }
            if j != p {
                assert(after[j] == entries[y]);
            }
            if i == p {
                key_order_is_total(entries[p].0, d);
                if y > p {
                    lemma_not_less_beyond(entries, d, p, y);
                }
                key_order_is_total(entries[y].0, d);
            }
        }
    }
}

/// After a row has been entered under a value, the value has it behind those
/// that it had, and every other value has what it had.
pub proof fn an_entered_row_is_found(
    entries: Seq<(Datum, Seq<u64>)>,
    d: Datum,
    row_id: u64,
    other: Datum,
)
    requires
        by_value(entries),
    ensures
        rows_with(entered(entries, d, row_id), d) == rows_with(entries, d).push(row_id),
        other != d ==> rows_with(entered(entries, d, row_id), other) == rows_with(entries, other),
{
    lemma_own_rows(entries, d, row_id);
    if other != d {
        lemma_other_rows(entries, d, row_id, other);
    }
}

proof fn lemma_own_rows(entries: Seq<(Datum, Seq<u64>)>, d: Datum, row_id: u64)
    requires
        by_value(entries),
    ensures
        rows_with(entered(entries, d, row_id), d) == rows_with(entries, d).push(row_id),
{
    let after = entered(entries, d, row_id);
    entering_keeps_the_order(entries, d, row_id);
    lemma_entry_place(entries, d, 0);
    let p = entry_place(entries, d, 0);
    assert(after[p].0 == d);
    lemma_found(after, d, p);
    if p < entries.len() && entries[p].0 == d {
        assert(after[p].1 == entries[p].1.push(row_id));
    } else {
        assert(after[p].1 == seq![row_id]);
        assert(Seq::<u64>::empty().push(row_id) =~= seq![row_id]);
    }
}

proof fn lemma_other_rows(
    entries: Seq<(Datum, Seq<u64>)>,
    d: Datum,
    row_id: u64,
    other: Datum,
)
    requires
        by_value(entries),
        other != d,
    ensures
        rows_with(entered(entries, d, row_id), other) == rows_with(entries, other),
{
    let after = entered(entries, d, row_id);
    entering_keeps_the_order(entries, d, row_id);
    lemma_entry_place(entries, d, 0);
    let p = entry_place(entries, d, 0);
    let same_place = p < entries.len() && entries[p].0 == d;
    if exists|k: int| 0 <= k < entries.len() && (#[trigger] entries[k]).0 == other {
        let k = choose|k: int| 0 <= k < entries.len() && (#[trigger] entries[k]).0 == other;
        let m = if same_place || k < p { k } else { k + 1 };
        assert(after[m] == entries[k]);
        lemma_found(entries, other, k);
        lemma_found(after, other, m);
    } else {
        assert forall|k: int| 0 <= k < after.len() implies (#[trigger] after[k]).0 != other by {
            if same_place {
                assert(after[k].0 == entries[k].0);
            } else if k < p {
                assert(after[k] == entries[k]);
            } else if k > p {
                assert(after[k] == entries[k - 1]);
            }
        }
        lemma_rows_with(entries, other);
        lemma_rows_with(after, other);
    }
}

proof fn lemma_is_place(entries: Seq<(Datum, Seq<u64>)>, d: Datum, p: int)
    requires
        by_value(entries),
        0 <= p < entries.len(),
        entries[p].0 == d,
    ensures
        entry_place(entries, d, 0) == p,
{
    lemma_entry_place(entries, d, 0);
    let q = entry_place(entries, d, 0);
    key_order_is_total(d, d);
    if q < p {
        assert(key_order(entries[q].0, entries[p].0) == Order::Less);
    }
    if q > p {
        assert(key_order(entries[p].0, d) == Order::Less);
    }
}

pub(crate) proof fn lemma_found(entries: Seq<(Datum, Seq<u64>)>, d: Datum, k: int)
    requires
        by_value(entries),
        0 <= k < entries.len(),
        entries[k].0 == d,
    ensures
        rows_with(entries, d) == entries[k].1,
{
    lemma_is_place(entries, d, k);
}

proof fn lemma_rows_with(entries: Seq<(Datum, Seq<u64>)>, d: Datum)
    requires
        by_value(entries),
    ensures
        (forall|k: int| 0 <= k < entries.len() ==> (#[trigger] entries[k]).0 != d) ==> rows_with(
            entries,
            d,
        ) == Seq::<u64>::empty(),
{
    lemma_entry_place(entries, d, 0);
}

/// A range yields the rows of exactly those values that lie in it.
pub proof fn a_range_yields_the_rows_in_it(
    entries: Seq<(Datum, Seq<u64>)>,
    lower: End,
    upper: End,
    i: int,
    row_id: u64,
)
    requires
        0 <= i,
    ensures
        rows_between(entries, lower, upper, i).contains(row_id) <==> exists|k: int|
            i <= k < entries.len() && above((#[trigger] entries[k]).0, lower) && beneath(
                entries[k].0,
                upper,
            ) && entries[k].1.contains(row_id),
    decreases entries.len() - i,
{
    if i < entries.len() {
        a_range_yields_the_rows_in_it(entries, lower, upper, i + 1, row_id);
        let rest = rows_between(entries, lower, upper, i + 1);
        let here = entries[i].1;
        if above(entries[i].0, lower) && beneath(entries[i].0, upper) {
            if (here + rest).contains(row_id) {
                let n = choose|n: int| 0 <= n < (here + rest).len() && (here + rest)[n] == row_id;
                if n < here.len() {
                    assert(here[n] == row_id);
                } else {
                    assert(rest[n - here.len()] == row_id);
                }
            }
            if here.contains(row_id) {
                let n = choose|n: int| 0 <= n < here.len() && here[n] == row_id;
                assert((here + rest)[n] == row_id);
            }
            if rest.contains(row_id) {
                let n = choose|n: int| 0 <= n < rest.len() && rest[n] == row_id;
                assert((here + rest)[here.len() + n] == row_id);
            }
        }
        if exists|k: int|
            i <= k < entries.len() && above((#[trigger] entries[k]).0, lower) && beneath(
                entries[k].0,
                upper,
            ) && entries[k].1.contains(row_id) {
            let k = choose|k: int|
                i <= k < entries.len() && above((#[trigger] entries[k]).0, lower) && beneath(
                    entries[k].0,
                    upper,
                ) && entries[k].1.contains(row_id);
            if k > i {
                assert(rest.contains(row_id));
            }
        }
    }
}

/// Whether the values of an index stand to a value as they compare with it: they are
/// null or of its kind, and it is not a zero, of which an index keeps two apart.
pub open spec fn suited(entries: Seq<(Datum, Seq<u64>)>, d: Datum) -> bool {
    &&& !(d matches Datum::Float(x) && is_equal(x, 0))
    &&& forall|i: int|
        0 <= i < entries.len() ==> (#[trigger] entries[i]).0 is Null || variant_rank(entries[i].0)
            == variant_rank(d)
}

impl SecondaryIndex {
    /// The values are in order.
    pub open spec fn wf(&self) -> bool {
        by_value(self@)
    }

    /// An empty index.
    pub fn new() -> (r: Self)
        ensures
            r.wf(),
            r@ == Seq::<(Datum, Seq<u64>)>::empty(),
    {
        let r = SecondaryIndex { entries: Vec::new() };
        assert(r@ =~= Seq::<(Datum, Seq<u64>)>::empty());
        r
    }

    /// The place of the first entry whose value is not less than `value`.
    fn place(&self, value: &Value) -> (r: usize)
        requires
            self.wf(),
        ensures
            r == entry_place(self@, value@, 0),
            r <= self.entries@.len(),
    {
        let ghost e = self@;
        let ghost d = value@;
        let mut low: usize = 0;
        let mut high: usize = self.entries.len();
        while low < high
            invariant
                low <= high <= self.entries@.len(),
                e == self@,
                by_value(e),
                d == value@,
                low > 0 ==> key_order(e[low - 1].0, d) == Order::Less,
                high < e.len() ==> key_order(e[high as int].0, d) != Order::Less,
            decreases high - low,
        {
            let mid: usize = low + (high - low) / 2;
            assert(e[mid as int].0 == self.entries@[mid as int].0@);
            match order_keys(&self.entries[mid].0, value) {
                Order::Less => {
                    low = mid + 1;
                },
                _ => {
                    high = mid;
                },
            }
        }
        proof {
            lemma_entry_place(e, d, 0);
            let q = entry_place(e, d, 0);
            if q < low {
                if q < low - 1 {
                    lemma_not_less_beyond(e, d, q, low - 1);
                }
            }
            if q > low {
                assert(key_order(e[low as int].0, d) == Order::Less);
            }
        }
        low
    }

    /// Enters a row under a value.
    pub fn insert(&mut self, value: Value, row_id: u64)
        requires
            old(self).wf(),
        ensures
            final(self).wf(),
            final(self)@ == entered(old(self)@, value@, row_id),
    {
        let ghost before = self@;
        let p = self.place(&value);
        proof {
            entering_keeps_the_order(before, value@, row_id);
            if p < before.len() {
                key_order_is_total(before[p as int].0, value@);
                assert(before[p as int].0 == self.entries@[p as int].0@);
            }
        }
        let found = p < self.entries.len() && (match order_keys(&self.entries[p].0, &value) {
            Order::Equal => true,
            _ => false,
        });
        if found {
            let (key, ids) = self.entries.remove(p);
            let mut ids = ids;
            ids.push(row_id);
            self.entries.insert(p, (key, ids));
            assert(self@ =~= before.update(p as int, (value@, ids@)));
        } else {
            let mut ids: Vec<u64> = Vec::new();
            ids.push(row_id);
            self.entries.insert(p, (value, ids));
            assert(ids@ =~= seq![row_id]);
            assert(self@ =~= before.insert(p as int, (value@, ids@)));
        }
    }

    /// The ids of the rows that have a value.
    pub fn equals(&self, value: &Value) -> (r: Vec<u64>)
        requires
            self.wf(),
        ensures
            r@ == rows_with(self@, value@),
    {
        let p = self.place(value);
        proof {
            if p < self@.len() {
                key_order_is_total(self@[p as int].0, value@);
            }
        }
        if p < self.entries.len() {
            match order_keys(&self.entries[p].0, value) {
                Order::Equal => {
                    let ids = self.entries[p].1.clone();
                    assert(ids@ =~= self.entries@[p as int].1@);
                    return ids;
                },
                _ => {},
            }
        }
        Vec::new()
    }

    /// Whether all values stand to a value as they compare with it.
    pub fn suits(&self, value: &Value) -> (r: bool)
        requires
            self.wf(),
        ensures
            r == suited(self@, value@),
    {
        if let Value::Float(x) = value {
            if x.same_number(F64 { bits: 0 }) {
                return false;
            }
        }
        let n: usize = self.entries.len();
        if n == 0 {
            return true;
        }
        let ghost e = self@;
        let ghost d = value@;
        assert(e[0] == (self.entries@[0].0@, self.entries@[0].1@));
        let first: usize = match self.entries[0].0 {
            Value::Null => 1,
            _ => 0,
        };
        if first == n {
            return true;
        }
        assert(e[first as int].0 == self.entries@[first as int].0@);
        assert(e[n - 1].0 == self.entries@[n - 1].0@);
        proof {
            assert forall|i: int| first <= i < n implies variant_rank(
                e[first as int].0,
            ) <= variant_rank((#[trigger] e[i]).0) <= variant_rank(e[n - 1].0) && !(e[i].0 is Null) by {
                if first < i {
                    assert(key_order(e[first as int].0, e[i].0) == Order::Less);
                }
                if i < n - 1 {
                    assert(key_order(e[i].0, e[n - 1].0) == Order::Less);
                }
                if i > 0 {
                    assert(key_order(e[0].0, e[i].0) == Order::Less);
                }
            }
        }
        rank_of(&self.entries[first].0) == rank_of(value) && rank_of(&self.entries[n - 1].0)
            == rank_of(value)
    }

    fn is_above(v: &Value, lower: &Bound) -> (r: bool)
        ensures
            r == above(v@, lower@),
    {
        match lower {
            Bound::Included(x) => order_keys(v, x) != Order::Less,
            Bound::Excluded(x) => order_keys(v, x) == Order::Greater,
            Bound::Unbounded => true,
        }
    }

    fn is_beneath(v: &Value, upper: &Bound) -> (r: bool)
        ensures
            r == beneath(v@, upper@),
    {
        match upper {
            Bound::Included(x) => order_keys(v, x) != Order::Greater,
            Bound::Excluded(x) => order_keys(v, x) == Order::Less,
            Bound::Unbounded => true,
        }
    }

    /// The ids of the rows whose values lie in a range, by ascending value: none where
    /// the lower end is above the upper.
    pub fn range(&self, lower: Bound, upper: Bound) -> (r: Vec<u64>)
        requires
            self.wf(),
        ensures
            r@ == rows_between(self@, lower@, upper@, 0),
    {
        let ghost e = self@;
        let mut out: Vec<u64> = Vec::new();
        let mut i: usize = 0;
        assert(out@ + rows_between(e, lower@, upper@, 0) =~= rows_between(e, lower@, upper@, 0));
        while i < self.entries.len()
            invariant
                i <= self.entries@.len(),
                e == self@,
                rows_between(e, lower@, upper@, 0) == out@ + rows_between(
                    e,
                    lower@,
                    upper@,
                    i as int,
                ),
            decreases self.entries@.len() - i,
        {
            let ghost before = out@;
            let entry = &self.entries[i];
            assert(e[i as int] == (entry.0@, entry.1@));
            if SecondaryIndex::is_above(&entry.0, &lower) && SecondaryIndex::is_beneath(
                &entry.0,
                &upper,
            ) {
                out.extend_from_slice(entry.1.as_slice());
                assert(out@ =~= before + entry.1@);
                assert(before + (entry.1@ + rows_between(e, lower@, upper@, i + 1)) =~= out@
                    + rows_between(e, lower@, upper@, i + 1));
            }
            i = i + 1;
        }
        assert(out@ + Seq::<u64>::empty() =~= out@);
        out
    }
}

} // verus!
