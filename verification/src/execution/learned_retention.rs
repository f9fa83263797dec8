//! When to sweep a row: a line, fitted to what earlier sweeps found, predicts
//! how many dead versions have piled up.

use vstd::prelude::*;
use std::collections::HashMap;
use crate::execution::row_key::{code_row, row_code};
use crate::float::{bits_of, is_at_most, FloatModel, FloatOp, Floats, F64};
use crate::index::models::{fitted, predicted, LinearModel};

verus! {

/// After how many writes a row is swept while there is no line yet.
pub const BOOTSTRAP_INTERVAL: u64 = 8;

/// The bits of the number three: a sweep is worth it from this many dead
/// versions on.
pub const PRUNE_THRESHOLD: u64 = 0x4008_0000_0000_0000;

/// How many samples a line is fitted to at least.
pub const MIN_SAMPLES_TO_FIT: usize = 30;

/// After how many samples the line is fitted anew.
pub const RETRAIN_EVERY: usize = 20;

/// How many samples are kept.
pub const MAX_SAMPLES: usize = 200;

/// The bits of `h`, mixed.
pub open spec fn mixed(h: u64) -> u64 {
    h ^ (h >> 33)
}

/// The number of writes after which a row is swept while there is no line: the
/// bootstrap interval, up to two more or less, by a hash of the row.
pub open spec fn jittered(table_id: u64, row_id: u64) -> int {
    let h = vstd::wrapping::u64_specs::wrapping_add(
        vstd::wrapping::u64_specs::wrapping_mul(table_id, 0x9E37_79B9_7F4A_7C15),
        row_id,
    );
    let g = mixed(
        vstd::wrapping::u64_specs::wrapping_mul(mixed(h), 0xFF51_AFD7_ED55_8CCD),
    );
    BOOTSTRAP_INTERVAL - 2 + g % 5
}

/// The number of writes after which a row is swept while there is no line.
pub fn jittered_bootstrap(table_id: u64, row_id: u64) -> (r: u64)
    ensures
        r == jittered(table_id, row_id),
        BOOTSTRAP_INTERVAL - 2 <= r <= BOOTSTRAP_INTERVAL + 2,
{
    let h: u64 = table_id.wrapping_mul(0x9E37_79B9_7F4A_7C15).wrapping_add(row_id);
    let a: u64 = h ^ (h >> 33);
    let b: u64 = a.wrapping_mul(0xFF51_AFD7_ED55_8CCD);
    let g: u64 = b ^ (b >> 33);
    (BOOTSTRAP_INTERVAL - 2) + (g % 5)
}

/// Counts the writes of each row since its last sweep, keeps what recent sweeps
/// found, and fits a line to it.
pub struct RetentionPredictor {
    /// The writes of a row, under the number of the row.
    pub stats: HashMap<u128, u64>,
    /// The writes before a sweep, and the dead versions that it found.
    pub samples: Vec<(F64, F64)>,
    pub model: Option<LinearModel>,
}

/// A predictor as contracts speak of it.
pub struct Retention {
    pub writes: Map<u128, u64>,
    pub samples: Seq<(F64, F64)>,
    pub line: Option<LinearModel>,
}

impl View for RetentionPredictor {
    type V = Retention;

    open spec fn view(&self) -> Retention {
        Retention { writes: self.stats@, samples: self.samples@, line: self.model }
    }
}

/// A predictor that knows nothing yet.
pub open spec fn no_retention() -> Retention {
    Retention { writes: Map::empty(), samples: Seq::empty(), line: None }
}

/// The writes of a row since its last sweep.
pub open spec fn writes_of(p: Retention, code: u128) -> u64 {
    if p.writes.dom().contains(code) { p.writes[code] } else { 0 }
}

/// A predictor after a write to a row.
pub open spec fn counted_write(p: Retention, table_id: u64, row_id: u64) -> Retention {
    let code = row_code(table_id, row_id);
    let n = writes_of(p, code);
    Retention {
        writes: p.writes.insert(
            code,
            if n == u64::MAX {
                n
            } else {
                (n + 1) as u64
            },
        ),
        ..p
    }
}

/// Whether a row is worth a sweep.
pub open spec fn worth_a_sweep(p: Retention, table_id: u64, row_id: u64, fl: FloatModel) -> bool {
    let n = writes_of(p, row_code(table_id, row_id));
    if n == 0 {
        false
    } else {
        match p.line {
            Some(line) => is_at_most(
                PRUNE_THRESHOLD,
                predicted(line, (fl.gives)(FloatOp::OfCount, n, 0), fl),
            ),
            None => n >= jittered(table_id, row_id),
        }
    }
}

/// The samples that are kept: the last ones.
pub open spec fn kept_samples(s: Seq<(F64, F64)>) -> Seq<(F64, F64)> {
    if s.len() > MAX_SAMPLES { s.skip(s.len() - MAX_SAMPLES) } else { s }
}

/// A predictor after a sweep of a row that found `dead` dead versions.
pub open spec fn learned(
    p: Retention,
    table_id: u64,
    row_id: u64,
    dead: usize,
    fl: FloatModel,
) -> Retention {
    let code = row_code(table_id, row_id);
    let sample = (
        F64 { bits: (fl.gives)(FloatOp::OfCount, writes_of(p, code), 0) },
        F64 { bits: (fl.gives)(FloatOp::OfCount, dead as u64, 0) },
    );
    let samples = kept_samples(p.samples.push(sample));
    let line = if samples.len() >= MIN_SAMPLES_TO_FIT && samples.len() % RETRAIN_EVERY as nat == 0 {
        fitted(
            samples.map_values(|s: (F64, F64)| s.0.bits),
            samples.map_values(|s: (F64, F64)| s.1.bits),
            fl,
        )
    } else {
        None
    };
    Retention {
        writes: p.writes.insert(code, 0),
        samples,
        line: match line {
            Some(l) => Some(l),
            None => p.line,
        },
    }
}

impl RetentionPredictor {
    /// A predictor that knows nothing yet.
    pub fn new() -> (r: Self)
        ensures
            r@ == no_retention(),
    {
        broadcast use vstd::std_specs::hash::group_hash_axioms;

        RetentionPredictor { stats: HashMap::new(), samples: Vec::new(), model: None }
    }

    fn writes_since_sweep(&self, code: u128) -> (r: u64)
        ensures
            r == writes_of(self@, code),
    {
        broadcast use vstd::std_specs::hash::group_hash_axioms;

        match self.stats.get(&code) {
            Some(n) => *n,
            None => 0,
        }
    }

    /// Counts a write to a row.
    pub fn record_write(&mut self, table_id: u64, row_id: u64)
        ensures
            final(self)@ == counted_write(old(self)@, table_id, row_id),
    {
        broadcast use vstd::std_specs::hash::group_hash_axioms;

        let code = code_row(table_id, row_id);
        let n: u64 = self.writes_since_sweep(code);
        self.stats.insert(
            code,
            if n == u64::MAX {
                n
            } else {
                n + 1
            },
        );
    }

    /// Whether a row is worth a sweep now.
    pub fn should_prune<F: Floats>(&self, table_id: u64, row_id: u64, floats: &F) -> (r: bool)
        requires
            floats.sound(),
        ensures
            r == worth_a_sweep(self@, table_id, row_id, floats.model()),
    {
        let n: u64 = self.writes_since_sweep(code_row(table_id, row_id));
        if n == 0 {
            return false;
        }
        match &self.model {
            Some(line) => {
                let x = F64 { bits: floats.apply(FloatOp::OfCount, n, 0) };
                let y = line.predict(x, floats);
                (F64 { bits: PRUNE_THRESHOLD }).at_most(y)
            },
            None => n >= jittered_bootstrap(table_id, row_id),
        }
    }

    /// Learns what a sweep of a row found, and begins to count anew.
    pub fn record_prune_result<F: Floats>(
        &mut self,
        table_id: u64,
        row_id: u64,
        dead_versions_found: usize,
        floats: &F,
    )
        requires
            floats.sound(),
        ensures
            final(self)@ == learned(
                old(self)@,
                table_id,
                row_id,
                dead_versions_found,
                floats.model(),
            ),
    {
        broadcast use vstd::std_specs::hash::group_hash_axioms;

        let ghost fl = floats.model();
        let code = code_row(table_id, row_id);
        let n: u64 = self.writes_since_sweep(code);
        self.stats.insert(code, 0);
        let x = F64 { bits: floats.apply(FloatOp::OfCount, n, 0) };
        let y = F64 { bits: floats.apply(FloatOp::OfCount, dead_versions_found as u64, 0) };
        self.samples.push((x, y));
        let ghost pushed = self.samples@;
        assert(pushed.skip(0) == pushed);
        let ghost mut dropped: int = 0;
        while self.samples.len() > MAX_SAMPLES
            invariant
                0 <= dropped <= pushed.len(),
                self.samples@ == pushed.skip(dropped),
                dropped > 0 ==> self.samples@.len() >= MAX_SAMPLES,
                self.stats@ == old(self).stats@.insert(code, 0),
                self.model == old(self).model,
            decreases self.samples@.len(),
        {
            self.samples.remove(0);
            assert(self.samples@ =~= pushed.skip(dropped + 1));
            proof {
                dropped = dropped + 1;
            }
        }
        assert(self.samples@ =~= kept_samples(pushed));
        let len: usize = self.samples.len();
        if len >= MIN_SAMPLES_TO_FIT && len % RETRAIN_EVERY == 0 {
            let mut xs: Vec<F64> = Vec::new();
            let mut ys: Vec<F64> = Vec::new();
            let mut i: usize = 0;
            while i < self.samples.len()
                invariant
                    i <= self.samples@.len(),
                    xs@.len() == i,
                    ys@.len() == i,
                    forall|k: int| 0 <= k < i ==> (#[trigger] xs@[k]) == self.samples@[k].0,
                    forall|k: int| 0 <= k < i ==> (#[trigger] ys@[k]) == self.samples@[k].1,
                decreases self.samples@.len() - i,
            {
                xs.push(self.samples[i].0);
                ys.push(self.samples[i].1);
                i = i + 1;
            }
            assert(bits_of(xs@) =~= self.samples@.map_values(|s: (F64, F64)| s.0.bits));
            assert(bits_of(ys@) =~= self.samples@.map_values(|s: (F64, F64)| s.1.bits));
            match LinearModel::fit(xs.as_slice(), ys.as_slice(), floats) {
                Some(line) => {
                    self.model = Some(line);
                },
                None => {},
            }
        }
    }

    /// Whether there is a line yet.
    pub fn has_model(&self) -> (r: bool)
        ensures
            r == self@.line is Some,
    {
        self.model.is_some()
    }
}

impl Default for RetentionPredictor {
    fn default() -> (r: Self)
        ensures
            r@ == no_retention(),
    {
        RetentionPredictor::new()
    }
}

/// While there is no line, a row is worth a sweep once it has taken two writes
/// more than the bootstrap interval, and never while it has taken fewer than
/// two less.
pub proof fn rows_are_swept_before_long(p: Retention, table_id: u64, row_id: u64, fl: FloatModel)
    requires
        p.line is None,
    ensures
        writes_of(p, row_code(table_id, row_id)) >= BOOTSTRAP_INTERVAL + 2 ==> worth_a_sweep(
            p,
            table_id,
            row_id,
            fl,
        ),
        writes_of(p, row_code(table_id, row_id)) < BOOTSTRAP_INTERVAL - 2 ==> !worth_a_sweep(
            p,
            table_id,
            row_id,
            fl,
        ),
{
}

} // verus!
