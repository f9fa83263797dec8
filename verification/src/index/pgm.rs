//! A learned index: sorted keys cut into stretches, each with a line that
//! predicts where a key of the stretch stands.

use vstd::prelude::*;
use crate::compute::simd_ops::{
    a_near_number_is_found, bounded, sorted_floats, SIMDSearch,
};
use crate::float::{
    greater, is_at_most, is_equal, is_finite, is_less, lesser, not_a_number, rank, FloatModel,
    FloatOp, Floats, F64, INFINITY, NEGATIVE_INFINITY,
};
use crate::index::models::{predicted, LinearModel};

verus! {

/// A stretch of keys and its line.
#[derive(Clone, Copy, Debug, PartialEq, Eq, Structural)]
pub struct PGMSegment {
    pub model: LinearModel,
    pub start_key: F64,
    pub end_key: F64,
    pub start_pos: usize,
    pub end_pos: usize,
}

/// `n` brought into `low..=high`.
pub open spec fn clamped(n: int, low: int, high: int) -> int {
    if n < low {
        low
    } else if n > high {
        high
    } else {
        n
    }
}

/// The place that a segment predicts for a key.
pub open spec fn predicted_place(s: PGMSegment, key: u64, fl: FloatModel) -> int {
    clamped(
        (fl.gives)(FloatOp::ToCount, predicted(s.model, key, fl), 0) as usize as int,
        s.start_pos as int,
        s.end_pos as int,
    )
}

impl PGMSegment {
    /// A segment.
    pub fn new(
        model: LinearModel,
        start_key: F64,
        end_key: F64,
        start_pos: usize,
        end_pos: usize,
    ) -> (r: Self)
        ensures
            r == (PGMSegment { model, start_key, end_key, start_pos, end_pos }),
    {
        PGMSegment { model, start_key, end_key, start_pos, end_pos }
    }

    /// The place that the segment predicts for a key.
    pub fn predict_position<F: Floats>(&self, key: F64, floats: &F) -> (r: usize)
        requires
            floats.sound(),
            self.start_pos <= self.end_pos,
        ensures
            r == predicted_place(*self, key.bits, floats.model()),
            self.start_pos <= r <= self.end_pos,
    {
        let p = self.model.predict(key, floats);
        let n: usize = floats.apply(FloatOp::ToCount, p.bits, 0) as usize;
        if n < self.start_pos {
            self.start_pos
        } else if n > self.end_pos {
            self.end_pos
        } else {
            n
        }
    }
}

// ---- building -------------------------------------------------------------------------

/// The segments closed so far, where the open one begins, and the slopes that
/// still fit it.
pub struct Building {
    pub segments: Seq<PGMSegment>,
    pub start: int,
    pub least: u64,
    pub most: u64,
}

/// The bits of the number two.
pub const TWO: u64 = 0x4000_0000_0000_0000;

/// The slope of a closed segment: the middle of the slopes that fit it.
pub open spec fn closing_slope(least: u64, most: u64, fl: FloatModel) -> u64 {
    if is_finite(least) && is_finite(most) {
        (fl.gives)(FloatOp::Over, (fl.gives)(FloatOp::Plus, least, most), TWO)
    } else {
        0
    }
}

/// The segment of the keys `from..=to`. Its line goes through its first key.
pub open spec fn closed_segment(
    keys: Seq<F64>,
    from: int,
    to: int,
    least: u64,
    most: u64,
    fl: FloatModel,
) -> PGMSegment {
    let slope = closing_slope(least, most, fl);
    let rise = (fl.gives)(FloatOp::Times, slope, keys[from].bits);
    let origin = (fl.gives)(FloatOp::OfCount, from as u64, 0);
    PGMSegment {
        model: LinearModel {
            slope: F64 { bits: slope },
            intercept: F64 { bits: (fl.gives)(FloatOp::Minus, origin, rise) },
        },
        start_key: keys[from],
        end_key: keys[to],
        start_pos: from as usize,
        end_pos: to as usize,
    }
}

/// The open segment is closed before key `i`, and a new one begins there.
pub open spec fn cut_before(keys: Seq<F64>, i: int, b: Building, fl: FloatModel) -> Building {
    Building {
        segments: b.segments.push(closed_segment(keys, b.start, i - 1, b.least, b.most, fl)),
        start: i,
        least: NEGATIVE_INFINITY,
        most: INFINITY,
    }
}

/// One more key: it joins the open segment where some slope puts every key of
/// it at most `eps` places off, else it begins a new one.
pub open spec fn extended(keys: Seq<F64>, i: int, eps: u64, b: Building, fl: FloatModel) -> Building {
    let dx = (fl.gives)(FloatOp::Minus, keys[i].bits, keys[b.start].bits);
    let dy = (fl.gives)(FloatOp::OfCount, (i - b.start) as u64, 0);
    if is_equal(dx, 0) {
        if is_less(eps, dy) { cut_before(keys, i, b, fl) } else { b }
    } else {
        let low = (fl.gives)(FloatOp::Over, (fl.gives)(FloatOp::Minus, dy, eps), dx);
        let high = (fl.gives)(FloatOp::Over, (fl.gives)(FloatOp::Plus, dy, eps), dx);
        let least = greater(b.least, low);
        let most = lesser(b.most, high);
        if is_less(most, least) {
            cut_before(keys, i, b, fl)
        } else {
            Building { least, most, ..b }
        }
    }
}

/// The first `n` keys.
pub open spec fn building(keys: Seq<F64>, n: int, eps: u64, fl: FloatModel) -> Building
    decreases n,
{
    if n <= 1 {
        Building {
            segments: Seq::empty(),
            start: 0,
            least: NEGATIVE_INFINITY,
            most: INFINITY,
        }
    } else {
        extended(keys, n - 1, eps, building(keys, n - 1, eps, fl), fl)
    }
}

/// The segments of a list of keys.
pub open spec fn built(keys: Seq<F64>, error_bound: usize, fl: FloatModel) -> Seq<PGMSegment> {
    if keys.len() == 0 {
        Seq::empty()
    } else {
        let eps = (fl.gives)(FloatOp::OfCount, error_bound as u64, 0);
        let b = building(keys, keys.len() as int, eps, fl);
        b.segments.push(
            closed_segment(keys, b.start, keys.len() - 1, b.least, b.most, fl),
        )
    }
}

/// Segments that stand one behind the other from the first key on: each begins
/// where the one before it ended, holds a key, and knows its first and last.
pub open spec fn tiled(segments: Seq<PGMSegment>, keys: Seq<F64>, next: int) -> bool {
    &&& forall|k: int|
        0 <= k < segments.len() ==> {
            let s = #[trigger] segments[k];
            &&& s.start_pos <= s.end_pos < keys.len()
            &&& s.start_key == keys[s.start_pos as int]
            &&& s.end_key == keys[s.end_pos as int]
        }
    &&& segments.len() > 0 ==> segments[0].start_pos == 0
    &&& forall|k: int, j: int|
        0 <= k && j == k + 1 && j < segments.len() ==> (#[trigger] segments[j]).start_pos == (
        #[trigger] segments[k]).end_pos + 1
    &&& next == (if segments.len() == 0 { 0 } else { segments.last().end_pos + 1 })
}

proof fn lemma_tiled_push(segments: Seq<PGMSegment>, keys: Seq<F64>, next: int, s: PGMSegment)
    requires
        tiled(segments, keys, next),
        s.start_pos == next,
        s.start_pos <= s.end_pos < keys.len(),
        s.start_key == keys[s.start_pos as int],
        s.end_key == keys[s.end_pos as int],
    ensures
        tiled(segments.push(s), keys, s.end_pos + 1),
{
    let after = segments.push(s);
    assert forall|k: int, j: int| 0 <= k && j == k + 1 && j < after.len() implies (#[trigger]
    after[j]).start_pos == (#[trigger] after[k]).end_pos + 1 by {
        if j < segments.len() {
            assert(segments[j].start_pos == segments[k].end_pos + 1);
        }
    }
}

proof fn lemma_building(keys: Seq<F64>, n: int, eps: u64, fl: FloatModel)
    requires
        1 <= n <= keys.len(),
        keys.len() <= usize::MAX,
    ensures
        ({
            let b = building(keys, n, eps, fl);
            tiled(b.segments, keys, b.start) && 0 <= b.start < n
        }),
    decreases n,
{
    if n > 1 {
        lemma_building(keys, n - 1, eps, fl);
        let b = building(keys, n - 1, eps, fl);
        lemma_tiled_push(
            b.segments,
            keys,
            b.start,
            closed_segment(keys, b.start, n - 2, b.least, b.most, fl),
        );
    }
}

/// The segments of a list of keys cover it: together they hold every key once,
/// in order.
pub proof fn segments_cover_the_keys(keys: Seq<F64>, error_bound: usize, fl: FloatModel)
    requires
        keys.len() <= usize::MAX,
    ensures
        tiled(built(keys, error_bound, fl), keys, keys.len() as int),
{
    if keys.len() > 0 {
        let eps = (fl.gives)(FloatOp::OfCount, error_bound as u64, 0);
        lemma_building(keys, keys.len() as int, eps, fl);
        let b = building(keys, keys.len() as int, eps, fl);
        lemma_tiled_push(
            b.segments,
            keys,
            b.start,
            closed_segment(keys, b.start, keys.len() - 1, b.least, b.most, fl),
        );
    }
}

/// A learned index over sorted keys.
pub struct PGMIndex {
    pub segments: Vec<PGMSegment>,
    pub keys: Vec<F64>,
    pub error_bound: usize,
}

fn close_segment<F: Floats>(
    keys: &Vec<F64>,
    from: usize,
    to: usize,
    least: F64,
    most: F64,
    floats: &F,
) -> (r: PGMSegment)
    requires
        floats.sound(),
        from <= to < keys@.len(),
    ensures
        r == closed_segment(keys@, from as int, to as int, least.bits, most.bits, floats.model()),
{
    let slope: u64 = if least.finite() && most.finite() {
        let sum = floats.apply(FloatOp::Plus, least.bits, most.bits);
        floats.apply(FloatOp::Over, sum, TWO)
    } else {
        0
    };
    let rise = floats.apply(FloatOp::Times, slope, keys[from].bits);
    let origin = floats.apply(FloatOp::OfCount, from as u64, 0);
    let intercept = floats.apply(FloatOp::Minus, origin, rise);
    PGMSegment {
        model: LinearModel { slope: F64 { bits: slope }, intercept: F64 { bits: intercept } },
        start_key: keys[from],
        end_key: keys[to],
        start_pos: from,
        end_pos: to,
    }
}

fn build_segments<F: Floats>(keys: &Vec<F64>, error_bound: usize, floats: &F) -> (r: Vec<PGMSegment>)
    requires
        floats.sound(),
    ensures
        r@ == built(keys@, error_bound, floats.model()),
        tiled(r@, keys@, keys@.len() as int),
{
    let ghost fl = floats.model();
    let ghost ks = keys@;
    let n: usize = keys.len();
    let mut segments: Vec<PGMSegment> = Vec::new();
    proof {
        segments_cover_the_keys(ks, error_bound, fl);
    }
    if n == 0 {
        assert(segments@ == built(ks, error_bound, fl));
        return segments;
    }
    let eps = F64 { bits: floats.apply(FloatOp::OfCount, error_bound as u64, 0) };
    let mut start: usize = 0;
    let mut least = F64 { bits: NEGATIVE_INFINITY };
    let mut most = F64 { bits: INFINITY };
    let mut i: usize = 1;
    while i < n
        invariant
            1 <= i <= n,
            n == keys@.len(),
            start < i,
            ks == keys@,
            floats.sound(),
            fl == floats.model(),
            building(ks, i as int, eps.bits, fl) == (Building {
                segments: segments@,
                start: start as int,
                least: least.bits,
                most: most.bits,
            }),
        decreases n - i,
    {
        let ghost before = Building {
            segments: segments@,
            start: start as int,
            least: least.bits,
            most: most.bits,
        };
        assert(building(ks, i + 1, eps.bits, fl) == extended(ks, i as int, eps.bits, before, fl));
        let dx = F64 { bits: floats.apply(FloatOp::Minus, keys[i].bits, keys[start].bits) };
        let dy = F64 { bits: floats.apply(FloatOp::OfCount, (i - start) as u64, 0) };
        if dx.same_number(F64 { bits: 0 }) {
            if eps.less(dy) {
                segments.push(close_segment(keys, start, i - 1, least, most, floats));
                start = i;
                least = F64 { bits: NEGATIVE_INFINITY };
                most = F64 { bits: INFINITY };
            }
        } else {
            let below = floats.apply(FloatOp::Minus, dy.bits, eps.bits);
            let above = floats.apply(FloatOp::Plus, dy.bits, eps.bits);
            let low = F64 { bits: floats.apply(FloatOp::Over, below, dx.bits) };
            let high = F64 { bits: floats.apply(FloatOp::Over, above, dx.bits) };
            let new_least = least.max(low);
            let new_most = most.min(high);
            if new_most.less(new_least) {
                segments.push(close_segment(keys, start, i - 1, least, most, floats));
                start = i;
                least = F64 { bits: NEGATIVE_INFINITY };
                most = F64 { bits: INFINITY };
            } else {
                least = new_least;
                most = new_most;
            }
        }
        i = i + 1;
    }
    segments.push(close_segment(keys, start, n - 1, least, most, floats));
    segments
}

// ---- finding -------------------------------------------------------------------------

/// The number of segments, from `i` on, that begin at the key or before it,
/// counted up to the first that does not.
pub open spec fn begun(segments: Seq<PGMSegment>, key: u64, i: int) -> int
    decreases segments.len() - i,
{
    if 0 <= i < segments.len() && is_at_most(segments[i].start_key.bits, key) {
        begun(segments, key, i + 1)
    } else {
        i
    }
}

/// The number of the segment in which a key would stand: the last that begins
/// at it or before it, or the first.
pub open spec fn home(segments: Seq<PGMSegment>, key: u64) -> int {
    let n = begun(segments, key, 0);
    if n == 0 { 0 } else { n - 1 }
}

pub open spec fn spans(s: PGMSegment, key: u64) -> bool {
    is_at_most(s.start_key.bits, key) && is_at_most(key, s.end_key.bits)
}

/// The segment that a key falls in: its home, or the one behind it.
pub open spec fn segment_of(segments: Seq<PGMSegment>, key: u64) -> Option<int> {
    if segments.len() == 0 {
        None
    } else {
        let h = home(segments, key);
        if spans(segments[h], key) {
            Some(h)
        } else if h + 1 < segments.len() && spans(segments[h + 1], key) {
            Some(h + 1)
        } else {
            None
        }
    }
}

/// Where a key is found.
pub open spec fn key_place(
    segments: Seq<PGMSegment>,
    keys: Seq<F64>,
    error_bound: int,
    key: u64,
    fl: FloatModel,
) -> Option<int> {
    match segment_of(segments, key) {
        None => None,
        Some(k) => bounded(keys, key, predicted_place(segments[k], key, fl), error_bound),
    }
}

/// The number of keys, from `i` on, that are less than `key`, counted up to
/// the first that is not.
pub open spec fn below(keys: Seq<F64>, key: u64, i: int) -> int
    decreases keys.len() - i,
{
    if 0 <= i < keys.len() && is_less(keys[i].bits, key) {
        below(keys, key, i + 1)
    } else {
        i
    }
}

/// The first place, from `i` on, whose key is greater than `key`.
pub open spec fn beyond(keys: Seq<F64>, key: u64, i: int) -> int
    decreases keys.len() - i,
{
    if 0 <= i < keys.len() && is_at_most(keys[i].bits, key) {
        beyond(keys, key, i + 1)
    } else {
        i
    }
}

/// How many keys are at most `key`, as the lines estimate it.
pub open spec fn rank_estimate(
    segments: Seq<PGMSegment>,
    keys: Seq<F64>,
    key: u64,
    fl: FloatModel,
) -> int {
    if keys.len() == 0 || is_less(key, keys[0].bits) {
        0
    } else if is_at_most(keys.last().bits, key) {
        keys.len() as int
    } else {
        match segment_of(segments, key) {
            Some(k) => predicted_place(segments[k], key, fl),
            None => segments[home(segments, key)].end_pos + 1,
        }
    }
}

/// The places of the keys in `min..=max`, in ascending order.
pub open spec fn range_places(keys: Seq<F64>, min: u64, max: u64) -> Seq<int> {
    if is_less(max, min) {
        Seq::empty()
    } else {
        let from = below(keys, min, 0);
        let to = beyond(keys, max, from);
        Seq::new((to - from) as nat, |i: int| from + i)
    }
}

pub proof fn begun_place(segments: Seq<PGMSegment>, key: u64, i: int)
    requires
        0 <= i <= segments.len(),
    ensures
        i <= begun(segments, key, i) <= segments.len(),
        forall|k: int|
            i <= k < begun(segments, key, i) ==> is_at_most(
                (#[trigger] segments[k]).start_key.bits,
                key,
            ),
        begun(segments, key, i) < segments.len() ==> !is_at_most(
            segments[begun(segments, key, i)].start_key.bits,
            key,
        ),
    decreases segments.len() - i,
{
    if i < segments.len() && is_at_most(segments[i].start_key.bits, key) {
        begun_place(segments, key, i + 1);
    }
}

pub proof fn below_place(keys: Seq<F64>, key: u64, i: int)
    requires
        0 <= i <= keys.len(),
    ensures
        i <= below(keys, key, i) <= keys.len(),
        forall|k: int| i <= k < below(keys, key, i) ==> is_less((#[trigger] keys[k]).bits, key),
        below(keys, key, i) < keys.len() ==> !is_less(keys[below(keys, key, i)].bits, key),
    decreases keys.len() - i,
{
    if i < keys.len() && is_less(keys[i].bits, key) {
        below_place(keys, key, i + 1);
    }
}

pub proof fn beyond_place(keys: Seq<F64>, key: u64, i: int)
    requires
        0 <= i <= keys.len(),
    ensures
        i <= beyond(keys, key, i) <= keys.len(),
        forall|k: int| i <= k < beyond(keys, key, i) ==> is_at_most((#[trigger] keys[k]).bits, key),
        beyond(keys, key, i) < keys.len() ==> !is_at_most(keys[beyond(keys, key, i)].bits, key),
    decreases keys.len() - i,
{
    if i < keys.len() && is_at_most(keys[i].bits, key) {
        beyond_place(keys, key, i + 1);
    }
}

/// The segments' first keys do not fall.
proof fn lemma_starts_sorted(segments: Seq<PGMSegment>, keys: Seq<F64>, next: int, a: int, b: int)
    requires
        tiled(segments, keys, next),
        sorted_floats(keys),
        0 <= a <= b < segments.len(),
    ensures
        segments[a].start_pos <= segments[b].start_pos,
        rank(segments[a].start_key.bits) <= rank(segments[b].start_key.bits),
        !not_a_number(segments[a].start_key.bits),
    decreases b - a,
{
    if a < b {
        lemma_starts_sorted(segments, keys, next, a, b - 1);
        assert(segments[b].start_pos == segments[b - 1].end_pos + 1);
        assert(segments[b - 1].start_pos <= segments[b - 1].end_pos);
    }
    let s = segments[a];
    let t = segments[b];
    assert(s.start_key == keys[s.start_pos as int]);
    assert(t.start_key == keys[t.start_pos as int]);
}

impl PGMIndex {
    /// The keys are sorted, and the segments cover them.
    pub open spec fn wf(&self) -> bool {
        &&& sorted_floats(self.keys@)
        &&& tiled(self.segments@, self.keys@, self.keys@.len() as int)
    }

    /// An index of given parts.
    pub fn new(segments: Vec<PGMSegment>, keys: Vec<F64>, error_bound: usize) -> (r: Self)
        ensures
            r.segments@ == segments@,
            r.keys@ == keys@,
            r.error_bound == error_bound,
    {
        PGMIndex { segments, keys, error_bound }
    }

    /// An index over sorted keys, whose lines are at most `error_bound` places
    /// off as far as the float unit computes exactly.
    pub fn build<F: Floats>(keys: Vec<F64>, error_bound: usize, floats: &F) -> (r: Self)
        requires
            floats.sound(),
        ensures
            r.keys@ == keys@,
            r.error_bound == error_bound,
            r.segments@ == built(keys@, error_bound, floats.model()),
            tiled(r.segments@, keys@, keys@.len() as int),
            sorted_floats(keys@) ==> r.wf(),
    {
        let segments = build_segments(&keys, error_bound, floats);
        PGMIndex { segments, keys, error_bound }
    }

    /// The number of segments that begin at the key or before it.
    fn count_begun(&self, key: F64) -> (r: usize)
        requires
            self.wf(),
            !not_a_number(key.bits),
        ensures
            r == begun(self.segments@, key.bits, 0),
            r <= self.segments@.len(),
    {
        let ghost s = self.segments@;
        let mut low: usize = 0;
        let mut high: usize = self.segments.len();
        while low < high
            invariant
                low <= high <= s.len(),
                s == self.segments@,
                self.wf(),
                !not_a_number(key.bits),
                forall|k: int|
                    0 <= k < low ==> is_at_most((#[trigger] s[k]).start_key.bits, key.bits),
                forall|k: int|
                    high <= k < s.len() ==> !is_at_most(
                        (#[trigger] s[k]).start_key.bits,
                        key.bits,
                    ),
            decreases high - low,
        {
            let mid: usize = low + (high - low) / 2;
            if self.segments[mid].start_key.at_most(key) {
                proof {
                    assert forall|k: int| 0 <= k < mid + 1 implies is_at_most(
                        (#[trigger] s[k]).start_key.bits,
                        key.bits,
                    ) by {
                        lemma_starts_sorted(s, self.keys@, self.keys@.len() as int, k, mid as int);
                    }
                }
                low = mid + 1;
            } else {
                proof {
                    assert forall|k: int| mid <= k < s.len() implies !is_at_most(
                        (#[trigger] s[k]).start_key.bits,
                        key.bits,
                    ) by {
                        lemma_starts_sorted(s, self.keys@, self.keys@.len() as int, mid as int, k);
                        lemma_starts_sorted(s, self.keys@, self.keys@.len() as int, k, k);
                    }
                }
                high = mid;
            }
        }
        proof {
            begun_place(s, key.bits, 0);
            let b = begun(s, key.bits, 0);
            if b < low {
                assert(is_at_most(s[b].start_key.bits, key.bits));
            }
            if low < b {
                assert(is_at_most(s[low as int].start_key.bits, key.bits));
            }
        }
        low
    }

    /// The number of the segment that a key falls in.
    fn find_segment_number(&self, key: F64) -> (r: Option<usize>)
        requires
            self.wf(),
            self.segments@.len() > 0 ==> !not_a_number(key.bits),
        ensures
            match r {
                Some(k) => segment_of(self.segments@, key.bits) == Some(k as int) && k
                    < self.segments@.len(),
                None => segment_of(self.segments@, key.bits) is None,
            },
    {
        if self.segments.len() == 0 {
            return None;
        }
        let n = self.count_begun(key);
        let h: usize = if n == 0 { 0 } else { n - 1 };
        let s = self.segments[h];
        if s.start_key.at_most(key) && key.at_most(s.end_key) {
            return Some(h);
        }
        if h + 1 < self.segments.len() {
            let t = self.segments[h + 1];
            if t.start_key.at_most(key) && key.at_most(t.end_key) {
                return Some(h + 1);
            }
        }
        None
    }

    /// The segment that a key falls in.
    pub fn find_segment(&self, key: F64) -> (r: Option<&PGMSegment>)
        requires
            self.wf(),
            self.segments@.len() > 0 ==> !not_a_number(key.bits),
        ensures
            match r {
                Some(s) => segment_of(self.segments@, key.bits) is Some && *s
                    == self.segments@[segment_of(self.segments@, key.bits)->0],
                None => segment_of(self.segments@, key.bits) is None,
            },
    {
        match self.find_segment_number(key) {
            Some(k) => Some(&self.segments[k]),
            None => None,
        }
    }

    /// Where a key is found. What is found holds the key.
    pub fn search<F: Floats>(&self, key: F64, floats: &F) -> (r: Option<usize>)
        requires
            floats.sound(),
            self.wf(),
            self.segments@.len() > 0 ==> !not_a_number(key.bits),
        ensures
            match r {
                Some(i) => key_place(
                    self.segments@,
                    self.keys@,
                    self.error_bound as int,
                    key.bits,
                    floats.model(),
                ) == Some(i as int) && i < self.keys@.len() && is_equal(
                    self.keys@[i as int].bits,
                    key.bits,
                ),
                None => key_place(
                    self.segments@,
                    self.keys@,
                    self.error_bound as int,
                    key.bits,
                    floats.model(),
                ) is None,
            },
    {
        match self.find_segment_number(key) {
            None => None,
            Some(k) => {
                let place = self.segments[k].predict_position(key, floats);
                SIMDSearch::search_around(self.keys.as_slice(), key, place, self.error_bound)
            },
        }
    }

    /// How many keys are at most `key`, as the lines estimate it.
    pub fn predicted_rank<F: Floats>(&self, key: F64, floats: &F) -> (r: usize)
        requires
            floats.sound(),
            self.wf(),
            self.keys@.len() > 0 ==> !not_a_number(key.bits),
        ensures
            r == rank_estimate(self.segments@, self.keys@, key.bits, floats.model()),
            r <= self.keys@.len(),
    {
        let n: usize = self.keys.len();
        if n == 0 || key.less(self.keys[0]) {
            return 0;
        }
        if self.keys[n - 1].at_most(key) {
            return n;
        }
        match self.find_segment_number(key) {
            Some(k) => self.segments[k].predict_position(key, floats),
            None => {
                let b = self.count_begun(key);
                let h: usize = if b == 0 { 0 } else { b - 1 };
                assert(self.segments@.len() > 0);
                proof {
                    assert(self.segments@[h as int].end_pos < self.keys@.len());
                }
                self.segments[h].end_pos + 1
            },
        }
    }

    /// The first place whose key is not less than `key`.
    pub fn lower_bound(&self, key: F64) -> (r: usize)
        requires
            self.wf(),
            !not_a_number(key.bits),
        ensures
            r == below(self.keys@, key.bits, 0),
            r <= self.keys@.len(),
    {
        let ghost ks = self.keys@;
        let mut low: usize = 0;
        let mut high: usize = self.keys.len();
        while low < high
            invariant
                low <= high <= ks.len(),
                ks == self.keys@,
                sorted_floats(ks),
                !not_a_number(key.bits),
                forall|k: int| 0 <= k < low ==> is_less((#[trigger] ks[k]).bits, key.bits),
                forall|k: int| high <= k < ks.len() ==> !is_less((#[trigger] ks[k]).bits, key.bits),
            decreases high - low,
        {
            let mid: usize = low + (high - low) / 2;
            if self.keys[mid].less(key) {
                proof {
                    assert forall|k: int| 0 <= k < mid + 1 implies is_less(
                        (#[trigger] ks[k]).bits,
                        key.bits,
                    ) by {
                        assert(rank(ks[k].bits) <= rank(ks[mid as int].bits));
                    }
                }
                low = mid + 1;
            } else {
                proof {
                    assert forall|k: int| mid <= k < ks.len() implies !is_less(
                        (#[trigger] ks[k]).bits,
                        key.bits,
                    ) by {
                        assert(rank(ks[mid as int].bits) <= rank(ks[k].bits));
                    }
                }
                high = mid;
            }
        }
        proof {
            below_place(ks, key.bits, 0);
            let b = below(ks, key.bits, 0);
            if b < low {
                assert(is_less(ks[b].bits, key.bits));
            }
            if low < b {
                assert(is_less(ks[low as int].bits, key.bits));
            }
        }
        low
    }

    /// The first place whose key is not less than `key`: the first of its run where
    /// the key is found.
    pub(crate) fn range_start<F: Floats>(&self, key: F64, floats: &F) -> (r: usize)
        requires
            floats.sound(),
            self.wf(),
            !not_a_number(key.bits),
        ensures
            r == below(self.keys@, key.bits, 0),
            r <= self.keys@.len(),
    {
        let found: usize = match self.search(key, floats) {
            Some(p) => p,
            None => {
                return self.lower_bound(key);
            },
        };
        let ghost ks = self.keys@;
        let mut p: usize = found;
        while p > 0 && self.keys[p - 1].same_number(key)
            invariant
                p <= found < ks.len(),
                ks == self.keys@,
                is_equal(ks[p as int].bits, key.bits),
            decreases p,
        {
            p = p - 1;
        }
        proof {
            below_place(ks, key.bits, 0);
            let b = below(ks, key.bits, 0);
            if b < p {
                assert(rank(ks[b].bits) <= rank(ks[p - 1].bits));
                assert(rank(ks[p - 1].bits) <= rank(ks[p as int].bits));
            }
        }
        p
    }

    /// The places of the keys in `min_key..=max_key`, in ascending order.
    pub fn range_search<F: Floats>(&self, min_key: F64, max_key: F64, floats: &F) -> (r: Vec<usize>)
        requires
            floats.sound(),
            self.wf(),
            self.keys@.len() > 0 ==> !not_a_number(min_key.bits),
        ensures
            r@.map_values(|i: usize| i as int) == range_places(
                self.keys@,
                min_key.bits,
                max_key.bits,
            ),
            forall|k: int| 0 <= k < r@.len() ==> #[trigger] r@[k] < self.keys@.len(),
    {
        let mut out: Vec<usize> = Vec::new();
        if self.keys.len() == 0 || max_key.less(min_key) {
            assert(out@.map_values(|i: usize| i as int) == range_places(
                self.keys@,
                min_key.bits,
                max_key.bits,
            ));
            return out;
        }
        let from: usize = self.range_start(min_key, floats);
        let mut i: usize = from;
        while i < self.keys.len() && self.keys[i].at_most(max_key)
            invariant
                from <= i <= self.keys@.len(),
                beyond(self.keys@, max_key.bits, from as int) == beyond(
                    self.keys@,
                    max_key.bits,
                    i as int,
                ),
                out@.len() == i - from,
                forall|k: int| 0 <= k < out@.len() ==> #[trigger] out@[k] == from + k,
            decreases self.keys@.len() - i,
        {
            out.push(i);
            i = i + 1;
        }
        assert(out@.map_values(|i: usize| i as int) == Seq::new(
            (i - from) as nat,
            |k: int| from + k,
        ));
        out
    }

    /// Adds a key at its place, and builds the segments anew.
    pub fn insert_with_rebuild<F: Floats>(&mut self, key: F64, floats: &F)
        requires
            floats.sound(),
            old(self).wf(),
            !not_a_number(key.bits),
        ensures
            final(self).wf(),
            final(self).error_bound == old(self).error_bound,
            final(self).keys@ == old(self).keys@.insert(
                below(old(self).keys@, key.bits, 0),
                key,
            ),
            final(self).segments@ == built(
                final(self).keys@,
                old(self).error_bound,
                floats.model(),
            ),
    {
        let p = self.lower_bound(key);
        let ghost before = self.keys@;
        proof {
            below_place(before, key.bits, 0);
        }
        let mut keys = self.keys.clone();
        assert(keys@ == before);
        keys.insert(p, key);
        proof {
            lemma_inserted_sorted(before, key, p as int);
        }
        *self = PGMIndex::build(keys, self.error_bound, floats);
    }
}

/// A key put behind those less than it keeps the keys sorted.
pub proof fn lemma_inserted_sorted(keys: Seq<F64>, key: F64, p: int)
    requires
        sorted_floats(keys),
        !not_a_number(key.bits),
        0 <= p <= keys.len(),
        forall|k: int| 0 <= k < p ==> is_less((#[trigger] keys[k]).bits, key.bits),
        p < keys.len() ==> !is_less(keys[p].bits, key.bits),
    ensures
        sorted_floats(keys.insert(p, key)),
{
    let after = keys.insert(p, key);
    assert forall|i: int, j: int| 0 <= i <= j < after.len() implies rank((#[trigger] after[i]).bits)
        <= rank((#[trigger] after[j]).bits) by {
        if i < p && j > p {
            assert(after[i] == keys[i] && after[j] == keys[j - 1]);
        } else if i == p && j > p {
            assert(after[j] == keys[j - 1]);
            assert(rank(keys[p].bits) <= rank(keys[j - 1].bits));
        } else if i < p && j == p {
            assert(after[i] == keys[i]);
        } else if i > p {
            assert(after[i] == keys[i - 1] && after[j] == keys[j - 1]);
        }
    }
    assert forall|i: int| 0 <= i < after.len() implies !not_a_number((#[trigger] after[i]).bits) by {
        if i < p {
            assert(after[i] == keys[i]);
        } else if i > p {
            assert(after[i] == keys[i - 1]);
        }
    }
}

/// The places of a range are places of keys.
pub proof fn range_places_within(keys: Seq<F64>, min: u64, max: u64)
    ensures
        forall|k: int|
            0 <= k < range_places(keys, min, max).len() ==> 0 <= #[trigger] range_places(
                keys,
                min,
                max,
            )[k] < keys.len(),
{
    below_place(keys, min, 0);
    beyond_place(keys, max, below(keys, min, 0));
}

/// A range yields exactly the places of the keys that lie in it, in ascending order.
pub proof fn range_is_exact(keys: Seq<F64>, min: u64, max: u64)
    requires
        sorted_floats(keys),
        !not_a_number(min),
    ensures
        forall|i: int|
            #![trigger keys[i]]
            0 <= i < keys.len() ==> (range_places(keys, min, max).contains(i) <==> is_at_most(
                min,
                keys[i].bits,
            ) && is_at_most(keys[i].bits, max)),
        forall|i: int, j: int|
            0 <= i < j < range_places(keys, min, max).len() ==> #[trigger] range_places(
                keys,
                min,
                max,
            )[i] < #[trigger] range_places(keys, min, max)[j],
{
    let places = range_places(keys, min, max);
    if !is_less(max, min) {
        let from = below(keys, min, 0);
        below_place(keys, min, 0);
        beyond_place(keys, max, from);
        let to = beyond(keys, max, from);
        assert forall|i: int|
            #![trigger keys[i]]
            0 <= i < keys.len() implies (places.contains(i) <==> is_at_most(min, keys[i].bits)
            && is_at_most(keys[i].bits, max)) by {
            if places.contains(i) {
                let k = choose|k: int| 0 <= k < places.len() && places[k] == i;
                assert(from <= i < to);
                assert(rank(keys[from].bits) <= rank(keys[i].bits));
            }
            if from <= i < to {
                assert(places[i - from] == i);
            }
            if i < from {
                assert(is_less(keys[i].bits, min));
            }
            if i >= to {
                assert(rank(keys[to].bits) <= rank(keys[i].bits));
            }
        }
    }
}

/// A key is found where the line of the segment that it falls in predicts a
/// place at most `error_bound` away from one that holds it.
pub proof fn a_close_prediction_finds_the_key(
    segments: Seq<PGMSegment>,
    keys: Seq<F64>,
    error_bound: int,
    key: u64,
    i: int,
    fl: FloatModel,
)
    requires
        sorted_floats(keys),
        0 <= error_bound,
        0 <= i < keys.len(),
        is_equal(keys[i].bits, key),
        segment_of(segments, key) matches Some(k) && predicted_place(segments[k], key, fl)
            - error_bound <= i <= predicted_place(segments[k], key, fl) + error_bound,
    ensures
        key_place(segments, keys, error_bound, key, fl) is Some,
{
    let k = segment_of(segments, key)->0;
    a_near_number_is_found(keys, key, predicted_place(segments[k], key, fl), error_bound, i);
}

} // verus!
