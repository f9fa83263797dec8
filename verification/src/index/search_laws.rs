//! What learned indexes find.

use vstd::prelude::*;
use vstd::layout::size_of;
use crate::compute::simd_ops::{bounded_place, found_in, found_place, sorted_floats};
use crate::float::{is_at_most, is_equal, is_less, rank, FloatModel, FloatOp, F64};
use crate::index::hybrid_router::{HybridIndex, SEARCH_REACH};
use crate::index::memory::{buffered_bytes, capped, index_bytes};
use crate::index::models::{predicted, LinearModel};
use crate::index::pgm::{
    begun_place, home, predicted_place, rank_estimate, segment_of, spans, tiled, PGMSegment,
};
use crate::index::rmi::{exact_window, routed, staged, staged_place, RMIStage};

verus! {

/// A key that stands near its predicted place is found there; a place that is found holds
/// the key.
pub proof fn a_key_near_its_place_is_found(
    keys: Seq<F64>,
    key: u64,
    place: int,
    error: int,
    i: int,
)
    requires
        0 <= place,
        0 <= error,
        place - error <= keys.len(),
    ensures
        ({
            let w = exact_window(place, error, keys.len() as int);
            let found = found_in(keys, key, w.0, w.1);
            &&& 0 <= i < keys.len() && place - error <= i < place + error && is_equal(
                keys[i].bits,
                key,
            ) ==> found is Some
            &&& found matches Some(k) ==> 0 <= k < keys.len() && is_equal(keys[k].bits, key)
                && place - error <= k < place + error
        }),
{
    let w = exact_window(place, error, keys.len() as int);
    found_place(keys, key, w.0, w.1);
}

/// A predicted place is one of the places that there are.
pub proof fn a_predicted_place_exists(
    stages: Seq<RMIStage>,
    positions: int,
    key: u64,
    models: Seq<LinearModel>,
    num: int,
    fl: FloatModel,
)
    ensures
        positions > 0 ==> 0 <= staged_place(stages, positions, key, fl) < positions,
        num > 0 ==> 0 <= routed(models, num, key, fl) < num,
        num > 0 && (fl.gives)(FloatOp::ToCount, predicted(models[0], key, fl), 0) < num && num
            <= u32::MAX ==> routed(models, num, key, fl) == (fl.gives)(
            FloatOp::ToCount,
            predicted(models[0], key, fl),
            0,
        ),
{
}

/// The prediction of a segment lies among its places, and is what its line says where that
/// does.
pub proof fn a_segment_predicts_its_own_places(s: PGMSegment, key: u64, fl: FloatModel)
    requires
        s.start_pos <= s.end_pos,
    ensures
        s.start_pos <= predicted_place(s, key, fl) <= s.end_pos,
        ({
            let n = (fl.gives)(FloatOp::ToCount, predicted(s.model, key, fl), 0);
            n <= u32::MAX && s.start_pos <= n <= s.end_pos ==> predicted_place(s, key, fl) == n
        }),
{
}

/// The estimated rank of a number is none below the first key and all from the last on; in
/// between it lies among the places of the segment that the number falls into, or right
/// behind them.
pub proof fn an_estimated_rank_lies_in_its_segment(
    segments: Seq<PGMSegment>,
    keys: Seq<F64>,
    key: u64,
    fl: FloatModel,
)
    requires
        sorted_floats(keys),
        tiled(segments, keys, keys.len() as int),
        keys.len() > 0,
    ensures
        is_less(key, keys[0].bits) ==> rank_estimate(segments, keys, key, fl) == 0,
        is_at_most(keys.last().bits, key) ==> rank_estimate(segments, keys, key, fl)
            == keys.len(),
        is_at_most(keys[0].bits, key) && is_less(key, keys.last().bits) ==> ({
            let r = rank_estimate(segments, keys, key, fl);
            exists|k: int|
                0 <= k < segments.len() && (#[trigger] segments[k]).start_pos <= r
                    <= segments[k].end_pos + 1 && is_at_most(segments[k].start_key.bits, key) && (k
                    + 1 < segments.len() ==> is_less(key, segments[k + 1].start_key.bits))
        }),
{
    let n = keys.len() as int;
    assert(rank(keys[0].bits) <= rank(keys[n - 1].bits));
    if is_at_most(keys[0].bits, key) && is_less(key, keys.last().bits) {
        begun_place(segments, key, 0);
        assert(segments[0].start_pos == 0 && segments[0].start_key == keys[0]);
        let h = home(segments, key);
        assert(is_at_most(segments[h].start_key.bits, key));
        if h + 1 < segments.len() {
            assert(!spans(segments[h + 1], key));
            assert(!is_at_most(segments[h + 1].start_key.bits, key));
            let s = segments[h + 1];
            assert(s.start_key == keys[s.start_pos as int]);
        }
        assert(segments[h].start_pos <= segments[h].end_pos);
        assert(segment_of(segments, key) == Some(h) || segment_of(segments, key) is None);
    }
}

/// An index of any kind that finds a key has it: a learned one at the place that it tells,
/// a tree with the value that it tells. A tree and an index that takes new keys find every
/// key that they have.
pub proof fn an_index_finds_what_it_has(index: HybridIndex, key: u64, fl: FloatModel)
    requires
        index.wf(),
    ensures
        match index {
            HybridIndex::RMI(i) => index.lookup(key, fl) matches Some(k) ==> i.in_reach(
                key,
                SEARCH_REACH,
                fl,
            ) ==> 0 <= k < i.keys@.len() && is_equal(i.keys@[k].bits, key),
            HybridIndex::PGM(i) => index.lookup(key, fl) matches Some(k) ==> 0 <= k < i.keys@.len()
                && is_equal(i.keys@[k].bits, key),
            HybridIndex::DynamicPGM(i) => index.lookup(key, fl) is Some <==> (exists|k: int|
                0 <= k < i.write_buffer@.len() && is_equal((#[trigger] i.write_buffer@[k]).bits, key))
                || (exists|k: int|
                0 <= k < i.base.keys@.len() && is_equal((#[trigger] i.base.keys@[k]).bits, key)),
            HybridIndex::BTree(i) => {
                &&& index.lookup(key, fl) is Some <==> i@.dom().contains(rank(key))
                &&& i@.dom().contains(rank(key)) ==> index.lookup(key, fl) == Some(
                    i@[rank(key)].1 as int,
                )
            },
        },
{
    match index {
        HybridIndex::RMI(i) => {
            let p = staged_place(i.stages@, i.positions@.len() as int, key, fl);
            if i.in_reach(key, SEARCH_REACH, fl) {
                a_key_near_its_place_is_found(i.keys@, key, p, SEARCH_REACH as int, 0);
            }
        },
        HybridIndex::PGM(i) => {
            match segment_of(i.segments@, key) {
                Some(k) => {
                    bounded_place(
                        i.keys@,
                        key,
                        predicted_place(i.segments@[k], key, fl),
                        i.error_bound as int,
                    );
                },
                None => {},
            }
        },
        _ => {},
    }
}

/// An index takes the room of its parts: with room for one key or segment more it takes no
/// less, and never less than the keys that it has room for.
pub proof fn an_index_takes_the_room_of_its_parts(
    segment_room: usize,
    key_room: usize,
    base: usize,
    buffer_room: usize,
    n: int,
)
    ensures
        capped(n) <= usize::MAX,
        0 <= n <= usize::MAX ==> capped(n) == n,
        n > usize::MAX ==> capped(n) == usize::MAX,
        buffered_bytes(base, buffer_room) >= base,
        buffer_room < usize::MAX ==> buffered_bytes(base, buffer_room) <= buffered_bytes(
            base,
            (buffer_room + 1) as usize,
        ),
        key_room < usize::MAX ==> index_bytes(segment_room, key_room) <= index_bytes(
            segment_room,
            (key_room + 1) as usize,
        ),
        segment_room < usize::MAX ==> index_bytes(segment_room, key_room) <= index_bytes(
            (segment_room + 1) as usize,
            key_room,
        ),
{
    let a = size_of::<F64>() as int;
    let b = size_of::<PGMSegment>() as int;
    assert(buffer_room * a <= (buffer_room + 1) * a) by (nonlinear_arith)
        requires
            a >= 0,
    ;
    assert(0 <= buffer_room * a) by (nonlinear_arith)
        requires
            a >= 0,
    ;
    assert(key_room * a <= (key_room + 1) * a) by (nonlinear_arith)
        requires
            a >= 0,
    ;
    assert(segment_room * b <= (segment_room + 1) * b) by (nonlinear_arith)
        requires
            b >= 0,
    ;
}

proof fn lemma_staged(
    stages: Seq<RMIStage>,
    last: RMIStage,
    i: int,
    key: u64,
    at: u64,
    fl: FloatModel,
)
    requires
        0 <= i <= stages.len(),
    ensures
        staged(stages.push(last), i, key, at, fl) == staged(
            seq![last],
            0,
            key,
            staged(stages, i, key, at, fl),
            fl,
        ),
    decreases stages.len() - i,
{
    let all = stages.push(last);
    if i < stages.len() {
        assert(all[i] == stages[i]);
        let m = routed(stages[i].models@, stages[i].num_models as int, at, fl);
        let next = if m < stages[i].models@.len() {
            predicted(stages[i].models@[m], key, fl)
        } else {
            at
        };
        lemma_staged(stages, last, i + 1, key, next, fl);
    } else {
        assert(all[i] == last);
        reveal_with_fuel(staged, 3);
    }
}

/// Each stage hands a key to one of its models, chosen by where the key stood before it; the
/// last one's prediction counts.
pub proof fn the_last_stage_predicts(
    stages: Seq<RMIStage>,
    last: RMIStage,
    key: u64,
    at: u64,
    fl: FloatModel,
)
    requires
        0 < last.num_models <= last.models@.len(),
    ensures
        ({
            let stood = staged(stages, 0, key, at, fl);
            let m = routed(last.models@, last.num_models as int, stood, fl);
            &&& 0 <= m < last.models@.len()
            &&& staged(stages.push(last), 0, key, at, fl) == predicted(last.models@[m], key, fl)
        }),
        staged(Seq::empty(), 0, key, at, fl) == at,
{
    lemma_staged(stages, last, 0, key, at, fl);
    reveal_with_fuel(staged, 3);
}

} // verus!
