//! A learned index of several stages, each of which picks the model for the
//! next.

use vstd::prelude::*;
use crate::compute::simd_ops::{found_in, found_place, sorted_floats};
use crate::float::{is_equal, is_less, not_a_number, rank, FloatModel, FloatOp, Floats, F64};
use crate::index::models::{predicted, LinearModel};
use crate::index::pgm::clamped;

verus! {

/// The models of one stage.
pub struct RMIStage {
    pub models: Vec<LinearModel>,
    pub num_models: usize,
}

/// The count that a float stands for.
pub open spec fn counted(x: u64, fl: FloatModel) -> usize {
    (fl.gives)(FloatOp::ToCount, x, 0) as usize
}

/// The number of the model that a stage picks for a key: what its first model
/// predicts, no further than the last.
pub open spec fn routed(models: Seq<LinearModel>, num: int, key: u64, fl: FloatModel) -> int {
    if num == 0 {
        0
    } else {
        clamped(counted(predicted(models[0], key, fl), fl) as int, 0, num - 1)
    }
}

impl RMIStage {
    /// A stage of given models.
    pub fn new(models: Vec<LinearModel>) -> (r: Self)
        ensures
            r.models@ == models@,
            r.num_models == models@.len(),
            r.wf(),
    {
        let num_models: usize = models.len();
        RMIStage { models, num_models }
    }

    /// A stage that counts models has one.
    pub open spec fn wf(&self) -> bool {
        self.num_models > 0 ==> self.models@.len() > 0
    }

    /// The number of the model for a key.
    pub fn route<F: Floats>(&self, key: F64, floats: &F) -> (r: usize)
        requires
            floats.sound(),
            self.wf(),
        ensures
            r == routed(self.models@, self.num_models as int, key.bits, floats.model()),
    {
        if self.num_models == 0 {
            return 0;
        }
        let prediction = self.models[0].predict(key, floats);
        let n: usize = floats.apply(FloatOp::ToCount, prediction.bits, 0) as usize;
        if n > self.num_models - 1 {
            self.num_models - 1
        } else {
            n
        }
    }
}

/// The whole index.
pub struct RMIIndex {
    pub stages: Vec<RMIStage>,
    pub keys: Vec<F64>,
    pub positions: Vec<usize>,
}

/// The prediction for `key` when it stood at `at` before stage `i`.
pub open spec fn staged(stages: Seq<RMIStage>, i: int, key: u64, at: u64, fl: FloatModel) -> u64
    decreases stages.len() - i,
{
    if 0 <= i < stages.len() {
        let s = stages[i];
        let m = routed(s.models@, s.num_models as int, at, fl);
        staged(
            stages,
            i + 1,
            key,
            if m < s.models@.len() {
                predicted(s.models@[m], key, fl)
            } else {
                at
            },
            fl,
        )
    } else {
        at
    }
}

/// The predicted position of a key.
pub open spec fn staged_place(stages: Seq<RMIStage>, positions: int, key: u64, fl: FloatModel) -> int {
    clamped(
        counted(staged(stages, 0, key, key, fl), fl) as int,
        0,
        if positions > 0 {
            positions - 1
        } else {
            0
        },
    )
}

/// The window of an exact search.
pub open spec fn exact_window(predicted: int, error: int, len: int) -> (int, int) {
    (
        if predicted > error {
            predicted - error
        } else {
            0
        },
        if predicted + error < len {
            predicted + error
        } else {
            len
        },
    )
}

impl RMIIndex {
    /// An index of given parts.
    pub fn new(stages: Vec<RMIStage>, keys: Vec<F64>, positions: Vec<usize>) -> (r: Self)
        ensures
            r.stages@ == stages@,
            r.keys@ == keys@,
            r.positions@ == positions@,
    {
        RMIIndex { stages, keys, positions }
    }

    /// Every stage can route.
    pub open spec fn wf(&self) -> bool {
        forall|i: int| 0 <= i < self.stages@.len() ==> (#[trigger] self.stages@[i]).wf()
    }

    /// The predicted position of a key.
    pub fn search<F: Floats>(&self, key: F64, floats: &F) -> (r: usize)
        requires
            floats.sound(),
            self.wf(),
        ensures
            r == staged_place(
                self.stages@,
                self.positions@.len() as int,
                key.bits,
                floats.model(),
            ),
            r == 0 || r < self.positions@.len(),
    {
        let ghost fl = floats.model();
        let mut at = key;
        let mut i: usize = 0;
        while i < self.stages.len()
            invariant
                i <= self.stages@.len(),
                floats.sound(),
                self.wf(),
                fl == floats.model(),
                staged(self.stages@, 0, key.bits, key.bits, fl) == staged(
                    self.stages@,
                    i as int,
                    key.bits,
                    at.bits,
                    fl,
                ),
            decreases self.stages@.len() - i,
        {
            let stage = &self.stages[i];
            let m: usize = stage.route(at, floats);
            if m < stage.models.len() {
                at = stage.models[m].predict(key, floats);
            }
            i = i + 1;
        }
        let n: usize = floats.apply(FloatOp::ToCount, at.bits, 0) as usize;
        let last: usize = if self.positions.len() > 0 { self.positions.len() - 1 } else { 0 };
        if n > last {
            last
        } else {
            n
        }
    }

    /// Whether the window of an exact search begins no later than behind the last key,
    /// and its end is a number.
    pub open spec fn in_reach(&self, key: u64, error_bound: usize, fl: FloatModel) -> bool {
        let p = staged_place(self.stages@, self.positions@.len() as int, key, fl);
        p - error_bound <= self.keys@.len() && p + error_bound <= usize::MAX
    }

    /// The first place near the predicted one that holds the key: from
    /// `error_bound` places before it up to, not with, the place `error_bound`
    /// behind it.
    pub fn find_exact<F: Floats>(&self, key: F64, error_bound: usize, floats: &F) -> (r: Option<usize>)
        requires
            floats.sound(),
            self.wf(),
            sorted_floats(self.keys@),
            self.in_reach(key.bits, error_bound, floats.model()),
            !not_a_number(key.bits),
        ensures
            ({
                let p = staged_place(
                    self.stages@,
                    self.positions@.len() as int,
                    key.bits,
                    floats.model(),
                );
                let w = exact_window(p, error_bound as int, self.keys@.len() as int);
                match r {
                    Some(i) => found_in(self.keys@, key.bits, w.0, w.1) == Some(i as int),
                    None => found_in(self.keys@, key.bits, w.0, w.1) is None,
                }
            }),
    {
        let p: usize = self.search(key, floats);
        let start: usize = if p > error_bound { p - error_bound } else { 0 };
        let end: usize = if p + error_bound < self.keys.len() {
            p + error_bound
        } else {
            self.keys.len()
        };
        let ghost ks = self.keys@;
        let mut low: usize = start;
        let mut high: usize = end;
        while low < high
            invariant
                start <= low <= high <= end <= ks.len(),
                ks == self.keys@,
                sorted_floats(ks),
                !not_a_number(key.bits),
                forall|k: int| start <= k < low ==> is_less((#[trigger] ks[k]).bits, key.bits),
                forall|k: int| high <= k < end ==> !is_less((#[trigger] ks[k]).bits, key.bits),
            decreases high - low,
        {
            let mid: usize = low + (high - low) / 2;
            if self.keys[mid].less(key) {
                proof {
                    assert forall|k: int| start <= k < mid + 1 implies is_less(
                        (#[trigger] ks[k]).bits,
                        key.bits,
                    ) by {
                        assert(rank(ks[k].bits) <= rank(ks[mid as int].bits));
                    }
                }
                low = mid + 1;
            } else {
                proof {
                    assert forall|k: int| mid <= k < end implies !is_less(
                        (#[trigger] ks[k]).bits,
                        key.bits,
                    ) by {
                        assert(rank(ks[mid as int].bits) <= rank(ks[k].bits));
                    }
                }
                high = mid;
            }
        }
        proof {
            lemma_found_from(ks, key.bits, start as int, end as int, low as int);
        }
        if low < end && self.keys[low].same_number(key) {
            Some(low)
        } else {
            proof {
                found_place(ks, key.bits, low as int, end as int);
                if found_in(ks, key.bits, low as int, end as int) is Some {
                    let i = found_in(ks, key.bits, low as int, end as int)->0;
                    assert(rank(ks[low as int].bits) <= rank(ks[i].bits));
                }
            }
            None
        }
    }
}

proof fn lemma_found_from(ks: Seq<F64>, key: u64, from: int, to: int, at: int)
    requires
        0 <= from <= at <= to <= ks.len(),
        forall|k: int| from <= k < at ==> is_less((#[trigger] ks[k]).bits, key),
    ensures
        found_in(ks, key, from, to) == found_in(ks, key, at, to),
    decreases at - from,
{
    if from < at {
        assert(!is_equal(ks[from].bits, key));
        lemma_found_from(ks, key, from + 1, to, at);
    }
}

} // verus!
