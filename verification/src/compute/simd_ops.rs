//! Searching, filtering and comparing lists of floats.

use vstd::prelude::*;
use crate::float::{is_at_most, is_equal, is_less, not_a_number, rank, F64};

verus! {

/// Searches over lists of floats.
pub struct SIMDSearch;

/// The first place in `from..to` that holds the number `target`.
pub open spec fn found_in(arr: Seq<F64>, target: u64, from: int, to: int) -> Option<int>
    decreases to - from,
{
    if from < 0 || from >= to || to > arr.len() {
        None
    } else if is_equal(arr[from].bits, target) {
        Some(from)
    } else {
        found_in(arr, target, from + 1, to)
    }
}

/// A window is not halved further once it holds this many places.
pub const SCAN_WINDOW: usize = 16;

/// The window that is left of `low..high` when it is halved, towards where
/// `target` stands first, until it is small enough to be scanned.
pub open spec fn narrowed(arr: Seq<F64>, target: u64, low: int, high: int) -> (int, int)
    decreases high - low,
{
    if high - low <= SCAN_WINDOW {
        (low, high)
    } else {
        let mid = low + (high - low) / 2;
        if is_less(arr[mid].bits, target) {
            narrowed(arr, target, mid + 1, high)
        } else {
            narrowed(arr, target, low, mid + 1)
        }
    }
}

/// Where `target` is found in `from..to` by halving and scanning.
pub open spec fn searched(arr: Seq<F64>, target: u64, from: int, to: int) -> Option<int> {
    let w = narrowed(arr, target, from, to);
    found_in(arr, target, w.0, w.1)
}

/// No float is less than one before it, and all are numbers.
pub open spec fn sorted_floats(arr: Seq<F64>) -> bool {
    &&& forall|i: int| 0 <= i < arr.len() ==> !not_a_number((#[trigger] arr[i]).bits)
    &&& forall|i: int, j: int|
        0 <= i <= j < arr.len() ==> rank((#[trigger] arr[i]).bits) <= rank(
            (#[trigger] arr[j]).bits,
        )
}

pub proof fn found_place(arr: Seq<F64>, target: u64, from: int, to: int)
    requires
        0 <= from,
        to <= arr.len(),
    ensures
        match found_in(arr, target, from, to) {
            Some(i) => from <= i < to && is_equal(arr[i].bits, target),
            None => forall|i: int| from <= i < to ==> !is_equal((#[trigger] arr[i]).bits, target),
        },
    decreases to - from,
{
    if from < to && !is_equal(arr[from].bits, target) {
        found_place(arr, target, from + 1, to);
    }
}

impl SIMDSearch {
    /// The first place that holds the number `target`.
    pub fn simd_find(arr: &[F64], target: F64) -> (r: Option<usize>)
        ensures
            match r {
                Some(i) => found_in(arr@, target.bits, 0, arr@.len() as int) == Some(i as int),
                None => found_in(arr@, target.bits, 0, arr@.len() as int) is None,
            },
    {
        Self::find_within(arr, target, 0, arr.len())
    }

    /// The first place in `from..to` that holds the number `target`.
    fn find_within(arr: &[F64], target: F64, from: usize, to: usize) -> (r: Option<usize>)
        requires
            from <= to <= arr@.len(),
        ensures
            match r {
                Some(i) => found_in(arr@, target.bits, from as int, to as int) == Some(i as int)
                    && from <= i < to && is_equal(arr@[i as int].bits, target.bits),
                None => found_in(arr@, target.bits, from as int, to as int) is None,
            },
    {
        let mut i: usize = from;
        while i < to
            invariant
                from <= i <= to <= arr@.len(),
                found_in(arr@, target.bits, from as int, to as int) == found_in(
                    arr@,
                    target.bits,
                    i as int,
                    to as int,
                ),
            decreases to - i,
        {
            if arr[i].same_number(target) {
                return Some(i);
            }
            i = i + 1;
        }
        None
    }

    /// Searches `from..to` by halving it and scanning what is left.
    fn search_within(arr: &[F64], target: F64, from: usize, to: usize) -> (r: Option<usize>)
        requires
            from <= to <= arr@.len(),
        ensures
            match r {
                Some(i) => searched(arr@, target.bits, from as int, to as int) == Some(i as int)
                    && from <= i < to && is_equal(arr@[i as int].bits, target.bits),
                None => searched(arr@, target.bits, from as int, to as int) is None,
            },
    {
        let mut low: usize = from;
        let mut high: usize = to;
        while high - low > SCAN_WINDOW
            invariant
                from <= low <= high <= to <= arr@.len(),
                narrowed(arr@, target.bits, from as int, to as int) == narrowed(
                    arr@,
                    target.bits,
                    low as int,
                    high as int,
                ),
            decreases high - low,
        {
            let mid: usize = low + (high - low) / 2;
            if arr[mid].less(target) {
                low = mid + 1;
            } else {
                high = mid + 1;
            }
        }
        Self::find_within(arr, target, low, high)
    }

    /// Searches a list by halving it and scanning what is left. In a sorted list
    /// this finds the first place that holds the number, wherever one does.
    pub fn binary_search(arr: &[F64], target: F64) -> (r: Option<usize>)
        ensures
            sorted_floats(arr@) ==> (r is Some <==> exists|i: int|
                0 <= i < arr@.len() && is_equal((#[trigger] arr@[i]).bits, target.bits)),
            match r {
                Some(i) => searched(arr@, target.bits, 0, arr@.len() as int) == Some(i as int) && i
                    < arr@.len() && is_equal(arr@[i as int].bits, target.bits),
                None => searched(arr@, target.bits, 0, arr@.len() as int) is None,
            },
    {
        proof {
            if sorted_floats(arr@) {
                halving_finds_what_is_there(arr@, target.bits, 0, arr@.len() as int);
            }
        }
        Self::search_within(arr, target, 0, arr.len())
    }

    /// Searches around a predicted place, at most `error_bound` places away
    /// from it.
    pub fn bounded_search(
        arr: &[F64],
        target: F64,
        predicted_pos: usize,
        error_bound: usize,
    ) -> (r: Option<usize>)
        requires
            predicted_pos + error_bound < usize::MAX,
        ensures
            match r {
                Some(i) => bounded(
                    arr@,
                    target.bits,
                    predicted_pos as int,
                    error_bound as int,
                ) == Some(i as int) && i < arr@.len() && is_equal(
                    arr@[i as int].bits,
                    target.bits,
                ),
                None => bounded(
                    arr@,
                    target.bits,
                    predicted_pos as int,
                    error_bound as int,
                ) is None,
            },
    {
        Self::search_around(arr, target, predicted_pos, error_bound)
    }

    /// Searches around a predicted place, however wide the window is.
    pub(crate) fn search_around(
        arr: &[F64],
        target: F64,
        predicted_pos: usize,
        error_bound: usize,
    ) -> (r: Option<usize>)
        ensures
            match r {
                Some(i) => bounded(
                    arr@,
                    target.bits,
                    predicted_pos as int,
                    error_bound as int,
                ) == Some(i as int) && i < arr@.len() && is_equal(
                    arr@[i as int].bits,
                    target.bits,
                ),
                None => bounded(
                    arr@,
                    target.bits,
                    predicted_pos as int,
                    error_bound as int,
                ) is None,
            },
    {
        if arr.len() == 0 {
            return None;
        }
        let low: usize = if predicted_pos > error_bound { predicted_pos - error_bound } else { 0 };
        let start: usize = if low < arr.len() - 1 { low } else { arr.len() - 1 };
        let end: usize = if predicted_pos < arr.len() && error_bound < arr.len() - predicted_pos - 1 {
            predicted_pos + error_bound + 1
        } else {
            arr.len()
        };
        if end - start <= 32 {
            Self::find_within(arr, target, start, end)
        } else {
            Self::search_within(arr, target, start, end)
        }
    }

    /// The floats in `min_val..=max_val`, in their order.
    pub fn filter_range(arr: &[F64], min_val: F64, max_val: F64) -> (r: Vec<F64>)
        ensures
            r@ == arr@.filter(
                |x: F64| is_at_most(min_val.bits, x.bits) && is_at_most(x.bits, max_val.bits),
            ),
    {
        let ghost pred = |x: F64|
            is_at_most(min_val.bits, x.bits) && is_at_most(x.bits, max_val.bits);
        let mut out: Vec<F64> = Vec::new();
        let mut i: usize = 0;
        proof {
            reveal(Seq::filter);
            assert(arr@.take(0) == Seq::<F64>::empty());
        }
        while i < arr.len()
            invariant
                i <= arr@.len(),
                pred == (|x: F64|
                    is_at_most(min_val.bits, x.bits) && is_at_most(x.bits, max_val.bits)),
                out@ == arr@.take(i as int).filter(pred),
            decreases arr@.len() - i,
        {
            proof {
                reveal(Seq::filter);
                assert(arr@.take(i + 1).drop_last() == arr@.take(i as int));
            }
            if min_val.at_most(arr[i]) && arr[i].at_most(max_val) {
                out.push(arr[i]);
            }
            i = i + 1;
        }
        assert(arr@.take(i as int) == arr@);
        out
    }

    /// The floats that a predicate accepts, in their order.
    pub fn filter<P: Fn(F64) -> bool>(arr: &[F64], predicate: P) -> (r: Vec<F64>)
        requires
            forall|x: F64| #[trigger] predicate.requires((x,)),
            forall|x: F64, a: bool, b: bool| #[trigger]
                predicate.ensures((x,), a) && #[trigger] predicate.ensures((x,), b) ==> a == b,
        ensures
            r@ == arr@.filter(|x: F64| predicate.ensures((x,), true)),
    {
        let ghost pred = |x: F64| predicate.ensures((x,), true);
        let mut out: Vec<F64> = Vec::new();
        let mut i: usize = 0;
        proof {
            reveal(Seq::filter);
            assert(arr@.take(0) == Seq::<F64>::empty());
        }
        while i < arr.len()
            invariant
                i <= arr@.len(),
                forall|x: F64| #[trigger] predicate.requires((x,)),
                forall|x: F64, a: bool, b: bool| #[trigger]
                    predicate.ensures((x,), a) && #[trigger] predicate.ensures((x,), b) ==> a == b,
                pred == (|x: F64| predicate.ensures((x,), true)),
                out@ == arr@.take(i as int).filter(pred),
            decreases arr@.len() - i,
        {
            proof {
                reveal(Seq::filter);
                assert(arr@.take(i + 1).drop_last() == arr@.take(i as int));
            }
            let keep = predicate(arr[i]);
            if keep {
                out.push(arr[i]);
            }
            i = i + 1;
        }
        assert(arr@.take(i as int) == arr@);
        out
    }

    /// Whether the floats at each place are the same number, up to the end of
    /// the shorter list.
    pub fn compare(arr1: &[F64], arr2: &[F64]) -> (r: Vec<bool>)
        ensures
            r@ == Seq::new(
                shorter(arr1@.len() as int, arr2@.len() as int) as nat,
                |i: int| is_equal(arr1@[i].bits, arr2@[i].bits),
            ),
    {
        let n: usize = if arr1.len() < arr2.len() { arr1.len() } else { arr2.len() };
        let mut out: Vec<bool> = Vec::new();
        let mut i: usize = 0;
        while i < n
            invariant
                i <= n,
                n == shorter(arr1@.len() as int, arr2@.len() as int),
                out@ == Seq::new(i as nat, |k: int| is_equal(arr1@[k].bits, arr2@[k].bits)),
            decreases n - i,
        {
            out.push(arr1[i].same_number(arr2[i]));
            assert(out@ == Seq::new(
                (i + 1) as nat,
                |k: int| is_equal(arr1@[k].bits, arr2@[k].bits),
            ));
            i = i + 1;
        }
        out
    }
}

/// The lesser of two lengths.
pub open spec fn shorter(a: int, b: int) -> int {
    if a < b { a } else { b }
}

/// The window around a predicted place.
pub open spec fn bound_window(len: int, predicted: int, error: int) -> (int, int) {
    let low = if predicted > error { predicted - error } else { 0 };
    let start = if low < len - 1 { low } else { len - 1 };
    let reach = predicted + error + 1;
    let end = if reach < len { reach } else { len };
    (start, end)
}

/// Where `target` is found around a predicted place.
pub open spec fn bounded(arr: Seq<F64>, target: u64, predicted: int, error: int) -> Option<int> {
    if arr.len() == 0 {
        None
    } else {
        let w = bound_window(arr.len() as int, predicted, error);
        if w.1 - w.0 <= 32 {
            found_in(arr, target, w.0, w.1)
        } else {
            searched(arr, target, w.0, w.1)
        }
    }
}

/// A search around a predicted place finds only what is equal to the target.
pub proof fn bounded_place(arr: Seq<F64>, target: u64, predicted: int, error: int)
    requires
        0 <= predicted,
        0 <= error,
    ensures
        bounded(arr, target, predicted, error) matches Some(i) ==> 0 <= i < arr.len() && is_equal(
            arr[i].bits,
            target,
        ),
{
    if arr.len() > 0 {
        let w = bound_window(arr.len() as int, predicted, error);
        if w.1 - w.0 <= 32 {
            found_place(arr, target, w.0, w.1);
        } else {
            lemma_narrowed(arr, target, w.0, w.1);
            let n = narrowed(arr, target, w.0, w.1);
            found_place(arr, target, n.0, n.1);
        }
    }
}

proof fn lemma_narrowed(arr: Seq<F64>, target: u64, low: int, high: int)
    requires
        0 <= low <= high <= arr.len(),
    ensures
        low <= narrowed(arr, target, low, high).0 <= narrowed(arr, target, low, high).1 <= high,
    decreases high - low,
{
    if high - low > SCAN_WINDOW {
        let mid = low + (high - low) / 2;
        if is_less(arr[mid].bits, target) {
            lemma_narrowed(arr, target, mid + 1, high);
        } else {
            lemma_narrowed(arr, target, low, mid + 1);
        }
    }
}

/// Halving a window of a sorted list finds the first place in it that holds the
/// number, wherever one does.
pub proof fn halving_finds_what_is_there(arr: Seq<F64>, target: u64, from: int, to: int)
    requires
        sorted_floats(arr),
        0 <= from <= to <= arr.len(),
    ensures
        searched(arr, target, from, to) == found_in(arr, target, from, to),
        searched(arr, target, from, to) is Some <==> exists|i: int|
            from <= i < to && is_equal((#[trigger] arr[i]).bits, target),
{
    let w = narrowed(arr, target, from, to);
    lemma_window(arr, target, from, to);
    found_place(arr, target, w.0, w.1);
    found_place(arr, target, from, to);
    lemma_first_found(arr, target, from, to, w.0, w.1);
}

proof fn lemma_first_found(arr: Seq<F64>, target: u64, from: int, to: int, low: int, high: int)
    requires
        0 <= from <= low <= high <= to <= arr.len(),
        forall|i: int| from <= i < low ==> !is_equal((#[trigger] arr[i]).bits, target),
        found_in(arr, target, low, high) is None ==> forall|i: int|
            high <= i < to ==> !is_equal((#[trigger] arr[i]).bits, target),
    ensures
        found_in(arr, target, from, to) == found_in(arr, target, low, high),
    decreases to - from,
{
    if from < low {
        lemma_first_found(arr, target, from + 1, to, low, high);
    } else if low < high {
        if !is_equal(arr[low].bits, target) {
            lemma_first_found(arr, target, low + 1, to, low + 1, high);
        }
    } else {
        found_place(arr, target, from, to);
    }
}

proof fn lemma_window(arr: Seq<F64>, target: u64, low: int, high: int)
    requires
        sorted_floats(arr),
        0 <= low <= high <= arr.len(),
    ensures
        ({
            let w = narrowed(arr, target, low, high);
            &&& low <= w.0 <= w.1 <= high
            &&& forall|i: int| low <= i < w.0 ==> !is_equal((#[trigger] arr[i]).bits, target)
            &&& found_in(arr, target, w.0, w.1) is None ==> forall|i: int|
                w.1 <= i < high ==> !is_equal((#[trigger] arr[i]).bits, target)
        }),
    decreases high - low,
{
    if high - low > SCAN_WINDOW {
        let mid = low + (high - low) / 2;
        let w = narrowed(arr, target, low, high);
        if is_less(arr[mid].bits, target) {
            lemma_window(arr, target, mid + 1, high);
            assert forall|i: int| low <= i < w.0 implies !is_equal(
                (#[trigger] arr[i]).bits,
                target,
            ) by {
                if i <= mid {
                    assert(rank(arr[i].bits) <= rank(arr[mid].bits));
                }
            }
        } else {
            lemma_window(arr, target, low, mid + 1);
            if found_in(arr, target, w.0, w.1) is None {
                found_place(arr, target, w.0, w.1);
                assert(!is_equal(arr[mid].bits, target));
                assert forall|i: int| w.1 <= i < high implies !is_equal(
                    (#[trigger] arr[i]).bits,
                    target,
                ) by {
                    if i > mid {
                        assert(rank(arr[mid].bits) <= rank(arr[i].bits));
                    }
                }
            }
        }
    }
}

/// A number of a sorted list that stands at most `error` places away from the
/// predicted place is found.
pub proof fn a_near_number_is_found(arr: Seq<F64>, target: u64, predicted: int, error: int, i: int)
    requires
        sorted_floats(arr),
        0 <= predicted,
        0 <= error,
        0 <= i < arr.len(),
        predicted - error <= i <= predicted + error,
        is_equal(arr[i].bits, target),
    ensures
        bounded(arr, target, predicted, error) is Some,
{
    let w = bound_window(arr.len() as int, predicted, error);
    found_place(arr, target, w.0, w.1);
    halving_finds_what_is_there(arr, target, w.0, w.1);
}

} // verus!
