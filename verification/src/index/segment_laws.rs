//! How the segments of a learned index are built, and when its buffer is merged.

use vstd::prelude::*;
use crate::float::{
    is_at_most, is_equal, is_finite, is_less, not_a_number, FloatModel, FloatOp, F64,
};
use crate::index::dynamic_pgm::{flushed, with_key, BufferedIndex};
use crate::index::pgm::{building, closing_slope, extended, Building, TWO};

verus! {

/// The least slope that puts a key of an open segment no more than `eps` places before its
/// own: the places between it and the first key, less `eps`, over the distance between both.
pub open spec fn least_slope(keys: Seq<F64>, start: int, i: int, eps: u64, fl: FloatModel) -> u64 {
    let far = (fl.gives)(FloatOp::OfCount, (i - start) as u64, 0);
    let apart = (fl.gives)(FloatOp::Minus, keys[i].bits, keys[start].bits);
    (fl.gives)(FloatOp::Over, (fl.gives)(FloatOp::Minus, far, eps), apart)
}

/// The greatest slope that puts a key of an open segment no more than `eps` places after its
/// own.
pub open spec fn most_slope(keys: Seq<F64>, start: int, i: int, eps: u64, fl: FloatModel) -> u64 {
    let far = (fl.gives)(FloatOp::OfCount, (i - start) as u64, 0);
    let apart = (fl.gives)(FloatOp::Minus, keys[i].bits, keys[start].bits);
    (fl.gives)(FloatOp::Over, (fl.gives)(FloatOp::Plus, far, eps), apart)
}

/// A key that joins an open segment leaves only slopes that fit it and that fitted before.
/// One for which none is left begins a segment of its own, and so does one that is the same
/// as the first key and stands too far from it.
pub proof fn a_key_joins_where_a_slope_fits(
    keys: Seq<F64>,
    i: int,
    eps: u64,
    b: Building,
    fl: FloatModel,
)
    requires
        0 <= b.start < i < keys.len(),
        !not_a_number(b.least),
        !not_a_number(b.most),
    ensures
        ({
            let r = extended(keys, i, eps, b, fl);
            let far = (fl.gives)(FloatOp::OfCount, (i - b.start) as u64, 0);
            let apart = (fl.gives)(FloatOp::Minus, keys[i].bits, keys[b.start].bits);
            let low = least_slope(keys, b.start, i, eps, fl);
            let high = most_slope(keys, b.start, i, eps, fl);
            &&& r.start == b.start || r.start == i
            &&& r.start == b.start ==> r.segments == b.segments && !is_less(r.least, b.least)
                && !is_less(b.most, r.most)
            &&& r.start == b.start && !is_equal(apart, 0) ==> !is_less(r.least, low) && !is_less(
                high,
                r.most,
            ) && !is_less(r.most, r.least)
            &&& r.start == i && !is_equal(apart, 0) ==> is_less(b.most, b.least) || is_less(
                b.most,
                low,
            ) || is_less(high, b.least) || is_less(high, low)
            &&& is_equal(apart, 0) ==> (r.start == i <==> is_less(eps, far))
            &&& r.start == i ==> r.segments.len() == b.segments.len() + 1
                && r.segments.drop_last() == b.segments && r.segments.last().start_pos
                == b.start as usize && r.segments.last().end_pos == (i - 1) as usize
                && r.segments.last().start_key == keys[b.start] && r.segments.last().end_key
                == keys[i - 1]
        }),
{
    let r = extended(keys, i, eps, b, fl);
    if r.start == i {
        assert(r.segments.drop_last() =~= b.segments);
    }
}

/// The keys join one by one, beside the first.
pub proof fn keys_join_in_order(keys: Seq<F64>, n: int, eps: u64, fl: FloatModel)
    requires
        1 <= n < keys.len(),
    ensures
        building(keys, 1, eps, fl).start == 0,
        building(keys, 1, eps, fl).segments.len() == 0,
        building(keys, n + 1, eps, fl) == extended(keys, n, eps, building(keys, n, eps, fl), fl),
{
}

/// Half the sum of two numbers lies between them, as long as the sum is finite.
pub open spec fn halves_in_order(fl: FloatModel) -> bool {
    forall|a: u64, b: u64|
        is_at_most(a, b) && is_finite((fl.gives)(FloatOp::Plus, a, b)) ==> is_at_most(
            a,
            #[trigger] (fl.gives)(FloatOp::Over, (fl.gives)(FloatOp::Plus, a, b), TWO),
        ) && is_at_most((fl.gives)(FloatOp::Over, (fl.gives)(FloatOp::Plus, a, b), TWO), b)
}

/// A segment is closed with a slope between those that fit it, and with a flat one where any
/// fits.
pub proof fn a_segment_is_closed_with_a_slope_that_fits(least: u64, most: u64, fl: FloatModel)
    requires
        halves_in_order(fl),
        is_at_most(least, most),
    ensures
        is_finite(least) && is_finite(most) && is_finite((fl.gives)(FloatOp::Plus, least, most))
            ==> is_at_most(least, closing_slope(least, most, fl)) && is_at_most(
            closing_slope(least, most, fl),
            most,
        ),
        !is_finite(least) || !is_finite(most) ==> closing_slope(least, most, fl) == 0,
{
    assert((fl.gives)(FloatOp::Over, (fl.gives)(FloatOp::Plus, least, most), TWO) == (fl.gives)(
        FloatOp::Over,
        (fl.gives)(FloatOp::Plus, least, most),
        TWO,
    ));
}

/// A new key waits until the buffer is full. A merge leaves none waiting; the buffer then
/// holds an eighth of the keys, and never less than at first.
pub proof fn a_full_buffer_is_merged(i: BufferedIndex, key: F64, fl: FloatModel)
    requires
        flushed(i, fl).keys.len() <= usize::MAX,
        with_key(i, key, fl).keys.len() <= usize::MAX,
    ensures
        i.buffer.len() + 1 < i.capacity ==> with_key(i, key, fl).buffer == i.buffer.push(key)
            && with_key(i, key, fl).keys == i.keys,
        i.buffer.len() + 1 >= i.capacity ==> with_key(i, key, fl).buffer.len() == 0,
        flushed(i, fl).buffer.len() == 0,
        i.buffer.len() > 0 ==> ({
            let f = flushed(i, fl);
            let eighth = f.keys.len() / 8;
            &&& f.capacity >= i.least_capacity
            &&& f.capacity >= eighth
            &&& f.capacity == i.least_capacity || f.capacity == eighth
        }),
        i.buffer.len() == 0 ==> flushed(i, fl) == i,
        flushed(i, fl).error_bound == i.error_bound,
        flushed(i, fl).least_capacity == i.least_capacity,
{
}

} // verus!
