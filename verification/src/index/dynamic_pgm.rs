//! A learned index that takes insertions: new keys wait in a buffer, and are
//! merged into the index when the buffer is full.

use vstd::prelude::*;
use vstd::multiset::Multiset;
use crate::compute::simd_ops::{found_place, sorted_floats, SIMDSearch};
use crate::float::{is_at_most, is_equal, is_less, not_a_number, rank, FloatModel, Floats, F64};
use crate::index::pgm::{
    below, below_place, beyond, beyond_place, built, range_is_exact, range_places,
    range_places_within, PGMIndex, PGMSegment,
};

verus! {

/// The buffer may hold this fraction of the indexed keys.
pub const BUFFER_GROWTH_DIVISOR: usize = 8;

/// The number of keys of a sorted list, counted from its front, before which
/// nothing greater than `key` stands.
pub open spec fn put_place(keys: Seq<F64>, key: u64) -> int
    decreases keys.len(),
{
    if keys.len() > 0 && is_less(key, keys.last().bits) {
        put_place(keys.drop_last(), key)
    } else {
        keys.len() as int
    }
}

/// The keys sorted; equal numbers keep their order.
pub open spec fn sorted_keys(keys: Seq<F64>) -> Seq<F64>
    decreases keys.len(),
{
    if keys.len() == 0 {
        Seq::empty()
    } else {
        let rest = sorted_keys(keys.drop_last());
        rest.insert(put_place(rest, keys.last().bits), keys.last())
    }
}

/// Two sorted lists as one; of equal numbers, those of the first come first.
pub open spec fn merged(a: Seq<F64>, b: Seq<F64>) -> Seq<F64>
    decreases a.len() + b.len(),
{
    if a.len() == 0 {
        b
    } else if b.len() == 0 {
        a
    } else if is_at_most(a.last().bits, b.last().bits) {
        merged(a, b.drop_last()).push(b.last())
    } else {
        merged(a.drop_last(), b).push(a.last())
    }
}

pub open spec fn no_nan(keys: Seq<F64>) -> bool {
    forall|i: int| 0 <= i < keys.len() ==> !not_a_number((#[trigger] keys[i]).bits)
}

proof fn lemma_put_place(keys: Seq<F64>, key: u64)
    requires
        sorted_floats(keys),
        !not_a_number(key),
    ensures
        0 <= put_place(keys, key) <= keys.len(),
        forall|i: int|
            0 <= i < put_place(keys, key) ==> rank((#[trigger] keys[i]).bits) <= rank(key),
        forall|i: int|
            put_place(keys, key) <= i < keys.len() ==> rank(key) < rank((#[trigger] keys[i]).bits),
    decreases keys.len(),
{
    if keys.len() > 0 {
        let rest = keys.drop_last();
        assert(sorted_floats(rest)) by {
            assert forall|i: int, j: int| 0 <= i <= j < rest.len() implies rank(
                (#[trigger] rest[i]).bits,
            ) <= rank((#[trigger] rest[j]).bits) by {
                assert(rest[i] == keys[i] && rest[j] == keys[j]);
            }
            assert forall|i: int| 0 <= i < rest.len() implies !not_a_number(
                (#[trigger] rest[i]).bits,
            ) by {
                assert(rest[i] == keys[i]);
            }
        }
        if is_less(key, keys.last().bits) {
            lemma_put_place(rest, key);
            let p = put_place(rest, key);
            assert forall|i: int| 0 <= i < p implies rank((#[trigger] keys[i]).bits) <= rank(
                key,
            ) by {
                assert(keys[i] == rest[i]);
            }
            assert forall|i: int| p <= i < keys.len() implies rank(key) < rank(
                (#[trigger] keys[i]).bits,
            ) by {
                if i < rest.len() {
                    assert(keys[i] == rest[i]);
                }
            }
        } else {
            assert forall|i: int| 0 <= i < keys.len() implies rank((#[trigger] keys[i]).bits)
                <= rank(key) by {
                assert(rank(keys[i].bits) <= rank(keys[keys.len() - 1].bits));
            }
        }
    }
}

proof fn lemma_put_sorted(keys: Seq<F64>, key: F64)
    requires
        sorted_floats(keys),
        !not_a_number(key.bits),
    ensures
        sorted_floats(keys.insert(put_place(keys, key.bits), key)),
        keys.insert(put_place(keys, key.bits), key).to_multiset() == keys.to_multiset().insert(key),
{
    broadcast use vstd::seq_lib::group_to_multiset_ensures;

    lemma_put_place(keys, key.bits);
    let p = put_place(keys, key.bits);
    let after = keys.insert(p, key);
    assert forall|i: int, j: int| 0 <= i <= j < after.len() implies rank((#[trigger] after[i]).bits)
        <= rank((#[trigger] after[j]).bits) by {
        let x = if i < p { i } else { i - 1 };
        let y = if j < p { j } else { j - 1 };
        if i != p {
            assert(after[i] == keys[x]);
        }
        if j != p {
            assert(after[j] == keys[y]);
        }
    }
    assert forall|i: int| 0 <= i < after.len() implies !not_a_number((#[trigger] after[i]).bits) by {
        if i < p {
            assert(after[i] == keys[i]);
        } else if i > p {
            assert(after[i] == keys[i - 1]);
        }
    }
}

/// Sorting puts the keys in order and keeps each of them.
pub proof fn sorting_keeps_the_keys(keys: Seq<F64>)
    requires
        no_nan(keys),
    ensures
        sorted_floats(sorted_keys(keys)),
        sorted_keys(keys).to_multiset() == keys.to_multiset(),
        sorted_keys(keys).len() == keys.len(),
    decreases keys.len(),
{
    broadcast use vstd::seq_lib::group_to_multiset_ensures;

    if keys.len() == 0 {
        assert(keys == Seq::<F64>::empty());
    } else {
        let rest = keys.drop_last();
        assert forall|i: int| 0 <= i < rest.len() implies !not_a_number(
            (#[trigger] rest[i]).bits,
        ) by {
            assert(rest[i] == keys[i]);
        }
        sorting_keeps_the_keys(rest);
        assert(!not_a_number(keys[keys.len() - 1].bits));
        lemma_put_place(sorted_keys(rest), keys.last().bits);
        lemma_put_sorted(sorted_keys(rest), keys.last());
        assert(keys == rest.push(keys.last()));
    }
}

proof fn lemma_sorted_prefix(a: Seq<F64>)
    requires
        sorted_floats(a),
        a.len() > 0,
    ensures
        sorted_floats(a.drop_last()),
        !not_a_number(a.last().bits),
        forall|i: int| 0 <= i < a.len() ==> rank((#[trigger] a[i]).bits) <= rank(a.last().bits),
{
    let rest = a.drop_last();
    assert forall|i: int, j: int| 0 <= i <= j < rest.len() implies rank((#[trigger] rest[i]).bits)
        <= rank((#[trigger] rest[j]).bits) by {
        assert(rest[i] == a[i] && rest[j] == a[j]);
    }
    assert forall|i: int| 0 <= i < rest.len() implies !not_a_number((#[trigger] rest[i]).bits) by {
        assert(rest[i] == a[i]);
    }
    assert(!not_a_number(a[a.len() - 1].bits));
}

/// Merging two sorted lists gives a sorted list that holds the keys of both.
pub proof fn merging_keeps_the_keys(a: Seq<F64>, b: Seq<F64>)
    requires
        sorted_floats(a),
        sorted_floats(b),
    ensures
        sorted_floats(merged(a, b)),
        merged(a, b).to_multiset() == a.to_multiset().add(b.to_multiset()),
        merged(a, b).len() == a.len() + b.len(),
    decreases a.len() + b.len(),
{
    broadcast use vstd::seq_lib::group_to_multiset_ensures;

    let m = merged(a, b);
    if a.len() == 0 {
        assert(a == Seq::<F64>::empty());
        assert(m.to_multiset() =~= a.to_multiset().add(b.to_multiset()));
    } else if b.len() == 0 {
        assert(b == Seq::<F64>::empty());
        assert(m.to_multiset() =~= a.to_multiset().add(b.to_multiset()));
    } else {
        lemma_sorted_prefix(a);
        lemma_sorted_prefix(b);
        let (x, y) = if is_at_most(a.last().bits, b.last().bits) {
            (a, b.drop_last())
        } else {
            (a.drop_last(), b)
        };
        let last = if is_at_most(a.last().bits, b.last().bits) { b.last() } else { a.last() };
        merging_keeps_the_keys(x, y);
        let rest = merged(x, y);
        assert(m == rest.push(last));
        assert(a == a.drop_last().push(a.last()));
        assert(b == b.drop_last().push(b.last()));
        assert(m.to_multiset() =~= a.to_multiset().add(b.to_multiset()));
        assert forall|i: int| 0 <= i < rest.len() implies rank((#[trigger] rest[i]).bits) <= rank(
            last.bits,
        ) by {
            assert(rest.to_multiset().contains(rest[i]));
            assert(x.to_multiset().contains(rest[i]) || y.to_multiset().contains(rest[i]));
            if x.to_multiset().contains(rest[i]) {
                assert(x.contains(rest[i]));
                let k = choose|k: int| 0 <= k < x.len() && x[k] == rest[i];
                assert(rank(a[k].bits) <= rank(a.last().bits));
            } else {
                assert(y.contains(rest[i]));
                let k = choose|k: int| 0 <= k < y.len() && y[k] == rest[i];
                assert(rank(b[k].bits) <= rank(b.last().bits));
            }
        }
        assert forall|i: int, j: int| 0 <= i <= j < m.len() implies rank((#[trigger] m[i]).bits)
            <= rank((#[trigger] m[j]).bits) by {
            if j < rest.len() {
                assert(m[i] == rest[i] && m[j] == rest[j]);
            } else if i < rest.len() {
                assert(m[i] == rest[i]);
            }
        }
        assert forall|i: int| 0 <= i < m.len() implies !not_a_number((#[trigger] m[i]).bits) by {
            if i < rest.len() {
                assert(m[i] == rest[i]);
            }
        }
    }
}

/// Sorts keys; equal numbers keep their order.
pub fn sort_keys(keys: &Vec<F64>) -> (r: Vec<F64>)
    requires
        no_nan(keys@),
    ensures
        r@ == sorted_keys(keys@),
{
    let mut out: Vec<F64> = Vec::new();
    let mut i: usize = 0;
    assert(keys@.take(0) == Seq::<F64>::empty());
    while i < keys.len()
        invariant
            i <= keys@.len(),
            no_nan(keys@),
            out@ == sorted_keys(keys@.take(i as int)),
        decreases keys@.len() - i,
    {
        let ghost so_far = keys@.take(i as int);
        assert(no_nan(so_far)) by {
            assert forall|k: int| 0 <= k < so_far.len() implies !not_a_number(
                (#[trigger] so_far[k]).bits,
            ) by {
                assert(so_far[k] == keys@[k]);
            }
        }
        proof {
            sorting_keeps_the_keys(so_far);
            assert(keys@.take(i + 1).drop_last() == so_far);
            lemma_put_place(out@, keys@[i as int].bits);
        }
        let key = keys[i];
        let mut p: usize = out.len();
        assert(out@.take(p as int) == out@);
        while p > 0 && key.less(out[p - 1])
            invariant
                p <= out@.len(),
                put_place(out@, key.bits) == put_place(out@.take(p as int), key.bits),
            decreases p,
        {
            assert(out@.take(p as int).drop_last() == out@.take(p - 1));
            p = p - 1;
        }
        assert(put_place(out@, key.bits) == p);
        out.insert(p, key);
        i = i + 1;
    }
    assert(keys@.take(i as int) == keys@);
    out
}

/// Merges two sorted lists, from their ends.
fn merge_keys(a: &Vec<F64>, b: &Vec<F64>) -> (r: Vec<F64>)
    requires
        sorted_floats(a@),
        sorted_floats(b@),
    ensures
        r@ == merged(a@, b@),
{
    let mut back: Vec<F64> = Vec::new();
    let mut i: usize = a.len();
    let mut j: usize = b.len();
    assert(a@.take(i as int) == a@);
    assert(b@.take(j as int) == b@);
    while i > 0 || j > 0
        invariant
            i <= a@.len(),
            j <= b@.len(),
            merged(a@, b@) == merged(a@.take(i as int), b@.take(j as int)) + back@.reverse(),
        decreases i + j,
    {
        let ghost x = a@.take(i as int);
        let ghost y = b@.take(j as int);
        let ghost before = back@;
        let from_b: bool = if i == 0 {
            true
        } else if j == 0 {
            false
        } else {
            a[i - 1].at_most(b[j - 1])
        };
        if from_b {
            assert(y.drop_last() == b@.take(j - 1));
            proof {
                if x.len() == 0 {
                    assert(y == y.drop_last().push(y.last()));
                }
            }
            assert(merged(x, y) == merged(x, y.drop_last()).push(y.last()));
            back.push(b[j - 1]);
            j = j - 1;
        } else {
            assert(x.drop_last() == a@.take(i - 1));
            proof {
                if y.len() == 0 {
                    assert(x == x.drop_last().push(x.last()));
                    if x.drop_last().len() == 0 {
                        assert(x.drop_last() == y);
                    }
                }
            }
            assert(merged(x, y) == merged(x.drop_last(), y).push(x.last()));
            back.push(a[i - 1]);
            i = i - 1;
        }
        assert(merged(a@, b@) == merged(a@.take(i as int), b@.take(j as int)) + back@.reverse());
    }
    assert(a@.take(0) == Seq::<F64>::empty());
    assert(b@.take(0) == Seq::<F64>::empty());
    assert(merged(a@, b@) == back@.reverse());
    let mut out: Vec<F64> = Vec::new();
    let mut k: usize = back.len();
    while k > 0
        invariant
            k <= back@.len(),
            out@.len() == back@.len() - k,
            forall|m: int| 0 <= m < out@.len() ==> #[trigger] out@[m] == back@[back@.len() - 1 - m],
        decreases k,
    {
        k = k - 1;
        out.push(back[k]);
    }
    assert(out@ == back@.reverse());
    out
}

/// A learned index with a buffer for new keys.
pub struct DynamicPGMIndex {
    pub base: PGMIndex,
    /// New keys, in the order of their arrival.
    pub write_buffer: Vec<F64>,
    /// How many keys the buffer holds before it is merged.
    pub buffer_capacity: usize,
    /// What the capacity never falls below.
    pub min_buffer_capacity: usize,
    pub error_bound: usize,
}

/// The capacity of the buffer of an index of `n` keys.
pub open spec fn capacity_for(n: int, least: int) -> int {
    if n / BUFFER_GROWTH_DIVISOR as int > least { n / BUFFER_GROWTH_DIVISOR as int } else { least }
}

/// An index with a buffer, as contracts speak of it.
pub struct BufferedIndex {
    pub segments: Seq<PGMSegment>,
    pub keys: Seq<F64>,
    pub buffer: Seq<F64>,
    pub capacity: usize,
    pub least_capacity: usize,
    pub error_bound: usize,
}

impl View for DynamicPGMIndex {
    type V = BufferedIndex;

    open spec fn view(&self) -> BufferedIndex {
        BufferedIndex {
            segments: self.base.segments@,
            keys: self.base.keys@,
            buffer: self.write_buffer@,
            capacity: self.buffer_capacity,
            least_capacity: self.min_buffer_capacity,
            error_bound: self.error_bound,
        }
    }
}

/// An index over keys, with nothing in its buffer.
pub open spec fn fresh_index(
    keys: Seq<F64>,
    error_bound: usize,
    capacity: usize,
    fl: FloatModel,
) -> BufferedIndex {
    BufferedIndex {
        segments: built(keys, error_bound, fl),
        keys,
        buffer: Seq::empty(),
        capacity,
        least_capacity: capacity,
        error_bound,
    }
}

/// An index whose buffer has been merged into its keys.
pub open spec fn flushed(i: BufferedIndex, fl: FloatModel) -> BufferedIndex {
    if i.buffer.len() == 0 {
        i
    } else {
        let keys = merged(i.keys, sorted_keys(i.buffer));
        BufferedIndex {
            segments: built(keys, i.error_bound, fl),
            keys,
            buffer: Seq::empty(),
            capacity: capacity_for(keys.len() as int, i.least_capacity as int) as usize,
            ..i
        }
    }
}

/// An index with one more key. The key waits in the buffer until that is full.
pub open spec fn with_key(i: BufferedIndex, key: F64, fl: FloatModel) -> BufferedIndex {
    let waiting = BufferedIndex { buffer: i.buffer.push(key), ..i };
    if waiting.buffer.len() >= i.capacity { flushed(waiting, fl) } else { waiting }
}

/// Whether every key of an index is less than `limit`.
pub open spec fn all_below(i: BufferedIndex, limit: u64) -> bool {
    &&& forall|k: int| 0 <= k < i.keys.len() ==> is_less((#[trigger] i.keys[k]).bits, limit)
    &&& forall|k: int| 0 <= k < i.buffer.len() ==> is_less((#[trigger] i.buffer[k]).bits, limit)
}

/// Whether one of the keys is the number `key`.
pub open spec fn has_key(keys: Seq<F64>, key: u64) -> bool {
    exists|i: int| 0 <= i < keys.len() && is_equal((#[trigger] keys[i]).bits, key)
}

/// The keys of an index and of its buffer in a range, sorted.
pub open spec fn keys_in_range(keys: Seq<F64>, buffer: Seq<F64>, min: u64, max: u64) -> Seq<F64> {
    sorted_keys(
        range_places(keys, min, max).map_values(|i: int| keys[i]) + buffer.filter(
            |x: F64| is_at_most(min, x.bits) && is_at_most(x.bits, max),
        ),
    )
}

impl DynamicPGMIndex {
    /// The base is in order, and the buffer holds numbers.
    pub open spec fn wf(&self) -> bool {
        &&& self.base.wf()
        &&& self.base.error_bound == self.error_bound
        &&& no_nan(self.write_buffer@)
    }

    /// Every key, of the base and of the buffer, with its count.
    pub open spec fn key_bag(&self) -> Multiset<F64> {
        self.base.keys@.to_multiset().add(self.write_buffer@.to_multiset())
    }

    /// An index over sorted keys, with an empty buffer.
    pub fn new<F: Floats>(
        keys: Vec<F64>,
        error_bound: usize,
        buffer_capacity: usize,
        floats: &F,
    ) -> (r: Self)
        requires
            floats.sound(),
        ensures
            r.base.keys@ == keys@,
            r.base.error_bound == error_bound,
            r.base.segments@ == built(keys@, error_bound, floats.model()),
            r.write_buffer@ == Seq::<F64>::empty(),
            r.buffer_capacity == buffer_capacity,
            r.min_buffer_capacity == buffer_capacity,
            r.error_bound == error_bound,
            r@ == fresh_index(keys@, error_bound, buffer_capacity, floats.model()),
            sorted_floats(keys@) ==> r.wf(),
    {
        let base = PGMIndex::build(keys, error_bound, floats);
        DynamicPGMIndex {
            base,
            write_buffer: Vec::new(),
            buffer_capacity,
            min_buffer_capacity: buffer_capacity,
            error_bound,
        }
    }

    /// Adds a key. It waits in the buffer until that is full; then the buffer
    /// is merged into the base.
    pub fn insert<F: Floats>(&mut self, key: F64, floats: &F)
        requires
            floats.sound(),
            old(self).wf(),
            !not_a_number(key.bits),
        ensures
            final(self).wf(),
            final(self)@ == with_key(old(self)@, key, floats.model()),
            final(self).key_bag() == old(self).key_bag().insert(key),
    {
        broadcast use vstd::seq_lib::group_to_multiset_ensures;

        self.write_buffer.push(key);
        assert(self.key_bag() =~= old(self).key_bag().insert(key));
        assert(no_nan(self.write_buffer@)) by {
            assert forall|i: int| 0 <= i < self.write_buffer@.len() implies !not_a_number(
                (#[trigger] self.write_buffer@[i]).bits,
            ) by {
                if i < old(self).write_buffer@.len() {
                    assert(self.write_buffer@[i] == old(self).write_buffer@[i]);
                }
            }
        }
        if self.write_buffer.len() >= self.buffer_capacity {
            self.flush_buffer(floats);
        }
    }

    /// Merges the buffer into the base, and sizes the buffer by the base.
    pub fn flush_buffer<F: Floats>(&mut self, floats: &F)
        requires
            floats.sound(),
            old(self).wf(),
        ensures
            final(self).wf(),
            final(self)@ == flushed(old(self)@, floats.model()),
            final(self).key_bag() == old(self).key_bag(),
    {
        broadcast use vstd::seq_lib::group_to_multiset_ensures;

        if self.write_buffer.len() == 0 {
            return;
        }
        let sorted = sort_keys(&self.write_buffer);
        proof {
            sorting_keeps_the_keys(self.write_buffer@);
            merging_keeps_the_keys(self.base.keys@, sorted@);
        }
        let keys = merge_keys(&self.base.keys, &sorted);
        self.write_buffer = Vec::new();
        self.base = PGMIndex::build(keys, self.error_bound, floats);
        let grown: usize = self.base.keys.len() / BUFFER_GROWTH_DIVISOR;
        self.buffer_capacity = if grown > self.min_buffer_capacity {
            grown
        } else {
            self.min_buffer_capacity
        };
        assert(self.key_bag() =~= old(self).key_bag());
    }

    /// Whether every key is less than `limit`.
    pub fn is_below(&self, limit: F64) -> (r: bool)
        requires
            self.wf(),
        ensures
            r == all_below(self@, limit.bits),
    {
        let n: usize = self.base.keys.len();
        if n > 0 && !self.base.keys[n - 1].less(limit) {
            assert(!is_less(self@.keys[n - 1].bits, limit.bits));
            return false;
        }
        assert forall|k: int| 0 <= k < self@.keys.len() implies is_less(
            (#[trigger] self@.keys[k]).bits,
            limit.bits,
        ) by {
            assert(rank(self.base.keys@[k].bits) <= rank(self.base.keys@[n - 1].bits));
        }
        let mut i: usize = 0;
        while i < self.write_buffer.len()
            invariant
                i <= self.write_buffer@.len(),
                forall|k: int|
                    0 <= k < i ==> is_less((#[trigger] self.write_buffer@[k]).bits, limit.bits),
            decreases self.write_buffer@.len() - i,
        {
            if !self.write_buffer[i].less(limit) {
                assert(!is_less(self@.buffer[i as int].bits, limit.bits));
                return false;
            }
            i = i + 1;
        }
        true
    }

    /// Whether a key is there, in the buffer or in the base.
    pub fn contains<F: Floats>(&self, key: F64, floats: &F) -> (r: bool)
        requires
            floats.sound(),
            self.wf(),
            !not_a_number(key.bits),
        ensures
            r <==> has_key(self.write_buffer@, key.bits) || has_key(self.base.keys@, key.bits),
            r <==> exists|x: F64| #[trigger]
                self.key_bag().contains(x) && is_equal(x.bits, key.bits),
    {
        broadcast use vstd::seq_lib::group_to_multiset_ensures;

        let ghost ks = self.base.keys@;
        let ghost buffer = self.write_buffer@;
        let buffered = match SIMDSearch::simd_find(self.write_buffer.as_slice(), key) {
            Some(_) => true,
            None => false,
        };
        proof {
            found_place(buffer, key.bits, 0, buffer.len() as int);
        }
        assert(buffered == has_key(buffer, key.bits));
        let p: usize = self.base.range_start(key, floats);
        let based = p < self.base.keys.len() && self.base.keys[p].same_number(key);
        proof {
            below_place(ks, key.bits, 0);
            assert forall|i: int|
                0 <= i < ks.len() && is_equal((#[trigger] ks[i]).bits, key.bits) implies based by {
                assert(rank(ks[p as int].bits) <= rank(ks[i].bits));
            }
            assert forall|x: F64| #[trigger]
                self.key_bag().contains(x) && is_equal(x.bits, key.bits) implies has_key(
                buffer,
                key.bits,
            ) || has_key(ks, key.bits) by {
                if buffer.to_multiset().contains(x) {
                    let i = choose|i: int| 0 <= i < buffer.len() && buffer[i] == x;
                    assert(is_equal(buffer[i].bits, key.bits));
                } else {
                    let i = choose|i: int| 0 <= i < ks.len() && ks[i] == x;
                    assert(is_equal(ks[i].bits, key.bits));
                }
            }
            if buffered {
                let i = choose|i: int|
                    0 <= i < buffer.len() && is_equal((#[trigger] buffer[i]).bits, key.bits);
                assert(buffer.contains(buffer[i]));
                assert(self.key_bag().contains(buffer[i]));
            }
            if based {
                assert(ks.contains(ks[p as int]));
                assert(self.key_bag().contains(ks[p as int]));
            }
        }
        buffered || based
    }

    /// The keys in `min_key..=max_key`, sorted.
    pub fn range_search<F: Floats>(&self, min_key: F64, max_key: F64, floats: &F) -> (r: Vec<F64>)
        requires
            floats.sound(),
            self.wf(),
            self.base.keys@.len() > 0 ==> !not_a_number(min_key.bits),
        ensures
            r@ == keys_in_range(
                self.base.keys@,
                self.write_buffer@,
                min_key.bits,
                max_key.bits,
            ),
    {
        let places = self.base.range_search(min_key, max_key, floats);
        let ghost ints = places@.map_values(|i: usize| i as int);
        let mut found: Vec<F64> = Vec::new();
        let mut i: usize = 0;
        while i < places.len()
            invariant
                i <= places@.len(),
                ints == places@.map_values(|i: usize| i as int),
                self.base.wf(),
                forall|k: int| 0 <= k < places@.len() ==> #[trigger] places@[k]
                    < self.base.keys@.len(),
                found@ == ints.take(i as int).map_values(|i: int| self.base.keys@[i]),
                no_nan(found@),
            decreases places@.len() - i,
        {
            let ghost before = found@;
            found.push(self.base.keys[places[i]]);
            assert(ints.take(i + 1).map_values(|i: int| self.base.keys@[i]) =~= found@);
            i = i + 1;
        }
        assert(ints.take(i as int) == ints);
        let waiting = SIMDSearch::filter_range(self.write_buffer.as_slice(), min_key, max_key);
        let ghost pred = |x: F64|
            is_at_most(min_key.bits, x.bits) && is_at_most(x.bits, max_key.bits);
        assert(waiting@ == self.write_buffer@.filter(pred));
        assert(no_nan(waiting@)) by {
            assert forall|k: int| 0 <= k < waiting@.len() implies !not_a_number(
                (#[trigger] waiting@[k]).bits,
            ) by {
                lemma_filtered_is_there(self.write_buffer@, pred, k);
            }
        }
        let ghost first = found@;
        let mut j: usize = 0;
        while j < waiting.len()
            invariant
                j <= waiting@.len(),
                no_nan(first),
                no_nan(waiting@),
                found@ == first + waiting@.take(j as int),
            decreases waiting@.len() - j,
        {
            found.push(waiting[j]);
            assert(found@ == first + waiting@.take(j + 1));
            j = j + 1;
        }
        assert(found@ == first + waiting@);
        sort_keys(&found)
    }

    /// The number of keys.
    pub fn len(&self) -> (r: usize)
        requires
            self.base.keys@.len() + self.write_buffer@.len() <= usize::MAX,
        ensures
            r == self.base.keys@.len() + self.write_buffer@.len(),
            r == self.key_bag().len(),
    {
        broadcast use vstd::seq_lib::group_to_multiset_ensures;

        self.base.keys.len() + self.write_buffer.len()
    }

    /// Whether there is no key.
    pub fn is_empty(&self) -> (r: bool)
        ensures
            r <==> self.base.keys@.len() + self.write_buffer@.len() == 0,
    {
        self.base.keys.len() == 0 && self.write_buffer.len() == 0
    }
}

proof fn lemma_filtered_is_there(s: Seq<F64>, pred: spec_fn(F64) -> bool, k: int)
    requires
        0 <= k < s.filter(pred).len(),
    ensures
        s.contains(s.filter(pred)[k]),
        pred(s.filter(pred)[k]),
    decreases s.len(),
{
    reveal(Seq::filter);
    let rest = s.drop_last();
    if k < rest.filter(pred).len() {
        lemma_filtered_is_there(rest, pred, k);
        let i = choose|i: int| 0 <= i < rest.len() && rest[i] == rest.filter(pred)[k];
        assert(s[i] == s.filter(pred)[k]);
    } else {
        assert(s[s.len() - 1] == s.filter(pred)[k]);
    }
}

proof fn lemma_filtered_count(s: Seq<F64>, pred: spec_fn(F64) -> bool, x: F64)
    ensures
        s.filter(pred).to_multiset().count(x) == if pred(x) {
            s.to_multiset().count(x)
        } else {
            0
        },
    decreases s.len(),
{
    broadcast use vstd::seq_lib::group_to_multiset_ensures;

    reveal(Seq::filter);
    if s.len() > 0 {
        let rest = s.drop_last();
        lemma_filtered_count(rest, pred, x);
        assert(s == rest.push(s.last()));
    } else {
        assert(s == Seq::<F64>::empty());
        assert(s.filter(pred) == Seq::<F64>::empty());
    }
}

proof fn lemma_absent_count(s: Seq<F64>, x: F64)
    requires
        !s.contains(x),
    ensures
        s.to_multiset().count(x) == 0,
{
    broadcast use vstd::seq_lib::group_to_multiset_ensures;

    assert(!s.to_multiset().contains(x));
}

proof fn lemma_sum_count(a: Seq<F64>, b: Seq<F64>, x: F64)
    ensures
        (a + b).to_multiset().count(x) == a.to_multiset().count(x) + b.to_multiset().count(x),
{
    vstd::seq_lib::lemma_multiset_commutative(a, b);
}

proof fn lemma_present_count(s: Seq<F64>, x: F64)
    ensures
        s.contains(x) <==> s.to_multiset().count(x) > 0,
{
    broadcast use vstd::seq_lib::group_to_multiset_ensures;

}

/// The keys of a base in a range.
spec fn base_in_range(keys: Seq<F64>, min: u64, max: u64) -> Seq<F64> {
    range_places(keys, min, max).map_values(|i: int| keys[i])
}

proof fn lemma_base_count(keys: Seq<F64>, min: u64, max: u64, x: F64)
    requires
        sorted_floats(keys),
        !not_a_number(min),
    ensures
        base_in_range(keys, min, max).to_multiset().count(x) == if is_at_most(min, x.bits)
            && is_at_most(x.bits, max) {
            keys.to_multiset().count(x)
        } else {
            0
        },
        no_nan(base_in_range(keys, min, max)),
{
    let found = base_in_range(keys, min, max);
    let inside = is_at_most(min, x.bits) && is_at_most(x.bits, max);
    range_is_exact(keys, min, max);
    range_places_within(keys, min, max);
    let places = range_places(keys, min, max);
    if is_less(max, min) {
        assert(found =~= Seq::<F64>::empty());
        lemma_absent_count(found, x);
        assert(!inside || !keys.contains(x));
        if inside {
            lemma_absent_count(keys, x);
        }
    } else {
        let from = below(keys, min, 0);
        let to = beyond(keys, max, from);
        below_place(keys, min, 0);
        beyond_place(keys, max, from);
        let front = keys.take(from);
        let back = keys.skip(to);
        assert(found =~= keys.subrange(from, to));
        assert(keys =~= front + (found + back));
        lemma_sum_count(front, found + back, x);
        lemma_sum_count(found, back, x);
        if inside {
            if front.contains(x) {
                let i = choose|i: int| 0 <= i < front.len() && front[i] == x;
                assert(keys[i] == x);
                assert(is_less(keys[i].bits, min));
            }
            if back.contains(x) {
                let i = choose|i: int| 0 <= i < back.len() && back[i] == x;
                assert(keys[to + i] == x);
                assert(rank(keys[to].bits) <= rank(keys[to + i].bits));
            }
            lemma_absent_count(front, x);
            lemma_absent_count(back, x);
        } else {
            if found.contains(x) {
                let k = choose|k: int| 0 <= k < found.len() && found[k] == x;
                assert(places.contains(places[k]));
                assert(keys[places[k]] == x);
            }
            lemma_absent_count(found, x);
        }
    }
}

/// A range yields every key of the base and of the buffer that lies in it, as often as
/// it was inserted, and nothing else, in ascending order.
pub proof fn range_yields_the_keys_in_it(
    keys: Seq<F64>,
    buffer: Seq<F64>,
    min: u64,
    max: u64,
    x: F64,
)
    requires
        sorted_floats(keys),
        no_nan(buffer),
        !not_a_number(min),
    ensures
        sorted_floats(keys_in_range(keys, buffer, min, max)),
        keys_in_range(keys, buffer, min, max).to_multiset().count(x) == if is_at_most(min, x.bits)
            && is_at_most(x.bits, max) {
            keys.to_multiset().count(x) + buffer.to_multiset().count(x)
        } else {
            0
        },
        keys_in_range(keys, buffer, min, max).contains(x) <==> (keys.contains(x)
            || buffer.contains(x)) && is_at_most(min, x.bits) && is_at_most(x.bits, max),
{
    let found = base_in_range(keys, min, max);
    let pred = |x: F64| is_at_most(min, x.bits) && is_at_most(x.bits, max);
    let waiting = buffer.filter(pred);
    let all = found + waiting;
    lemma_base_count(keys, min, max, x);
    assert forall|k: int| 0 <= k < all.len() implies !not_a_number((#[trigger] all[k]).bits) by {
        if k < found.len() {
            assert(all[k] == found[k]);
        } else {
            assert(all[k] == waiting[k - found.len()]);
            lemma_filtered_is_there(buffer, pred, k - found.len());
        }
    }
    sorting_keeps_the_keys(all);
    lemma_filtered_count(buffer, pred, x);
    lemma_sum_count(found, waiting, x);
    lemma_present_count(sorted_keys(all), x);
    lemma_present_count(keys, x);
    lemma_present_count(buffer, x);
}

} // verus!
