//! Rows in versions.

use shrestidb::execution::learned_retention::RetentionPredictor;
use shrestidb::execution::mvcc_store::{MVCCTable, VersionChain};
use shrestidb::float::{FloatOp, FloatUnit, F64};
use std::collections::HashMap;

fn floats(
) -> FloatUnit<impl Fn(&str) -> Option<u64>, impl Fn(u64) -> String, impl Fn(FloatOp, u64, u64) -> u64>
{
    FloatUnit {
        read: |s: &str| s.parse::<f64>().ok().map(f64::to_bits),
        show: |x: u64| f64::from_bits(x).to_string(),
        compute: |op: FloatOp, x: u64, y: u64| {
            let (a, b) = (f64::from_bits(x), f64::from_bits(y));
            match op {
                FloatOp::Plus => (a + b).to_bits(),
                FloatOp::Minus => (a - b).to_bits(),
                FloatOp::Times => (a * b).to_bits(),
                FloatOp::Over => (a / b).to_bits(),
                FloatOp::SquareRoot => a.sqrt().to_bits(),
                FloatOp::Ceiling => a.ceil().to_bits(),
                FloatOp::Power => a.powi(y as i32).to_bits(),
                FloatOp::OfInteger => ((x as i64) as f64).to_bits(),
                FloatOp::OfCount => (x as f64).to_bits(),
                FloatOp::ToCount => a as u64,
            }
        },
    }
}

fn f(x: f64) -> F64 {
    F64 { bits: x.to_bits() }
}

#[test]
fn test_index_range_finds_inserted_rows() {
    let mut table = MVCCTable::new();
    for id in [10u64, 20, 30, 40, 50] {
        table.apply_insert(id, 1, format!("row{id}").into_bytes(), &floats());
    }

    let mut ids = table.index_range(f(15.0), f(45.0), &floats());
    ids.sort();
    assert_eq!(ids, vec![20, 30, 40]);
}

#[test]
fn test_index_range_on_empty_table_is_empty() {
    let table = MVCCTable::new();
    assert!(table.index_range(f(0.0), f(100.0), &floats()).is_empty());
}

#[test]
fn test_index_range_includes_recently_inserted_unflushed_rows() {
    let mut table = MVCCTable::new();
    table.apply_insert(1, 1, b"a".to_vec(), &floats());
    table.apply_insert(2, 1, b"b".to_vec(), &floats());

    let mut ids = table.index_range(f(0.0), f(10.0), &floats());
    ids.sort();
    assert_eq!(ids, vec![1, 2]);
}

const NUM_ROWS: u64 = 500;
const NUM_HOT_ROWS: u64 = 20;
const TOTAL_COMMITS: u64 = 20_000;
const HORIZON_LAG_EVERY: u64 = 5;
struct Lcg(u64);
impl Lcg {
    fn next(&mut self) -> u64 {
        self.0 = self.0.wrapping_mul(6364136223846793005).wrapping_add(1442695040888963407);
        self.0 >> 33
    }
}
fn build_write_sequence() -> Vec<u64> {
    let mut rng = Lcg(0xC0FFEE);
    (0..TOTAL_COMMITS)
        .map(|_| {
            if rng.next() % 100 < 80 {
                rng.next() % NUM_HOT_ROWS
            } else {
                NUM_HOT_ROWS + (rng.next() % (NUM_ROWS - NUM_HOT_ROWS))
            }
        })
        .collect()
}

struct Outcome {
    label: String,
    end_of_run_bloat: usize,
    sweep_attempts: usize,
    wasted_sweeps: usize,
}

fn horizon_at(commit_ts: u64) -> u64 {
    commit_ts.saturating_sub(1) / HORIZON_LAG_EVERY
}

fn apply_write(table: &mut MVCCTable, row_id: u64, commit_ts: u64) {
    if table.version_count(row_id) == 0 {
        table.apply_insert(row_id, commit_ts, vec![0u8], &floats());
    } else {
        table.apply_update(row_id, commit_ts, vec![0u8]);
    }
}

fn total_bloat(table: &MVCCTable) -> usize {
    (0..NUM_ROWS).map(|r| table.version_count(r).saturating_sub(1)).sum()
}

fn run_learned(writes: &[u64]) -> Outcome {
    let mut table = MVCCTable::new();
    let mut predictor = RetentionPredictor::new();
    let mut sweep_attempts = 0usize;
    let mut wasted_sweeps = 0usize;

    for (i, &row_id) in writes.iter().enumerate() {
        let commit_ts = i as u64 + 1;
        apply_write(&mut table, row_id, commit_ts);

        predictor.record_write(1, row_id);
        if predictor.should_prune(1, row_id, &floats()) {
            sweep_attempts += 1;
            let removed = table.prune_row(row_id, horizon_at(commit_ts));
            if removed == 0 {
                wasted_sweeps += 1;
            }
            predictor.record_prune_result(1, row_id, removed, &floats());
        }
    }

    println!("  [diagnostic] predictor.has_model() at end of run: {}", predictor.has_model());

    Outcome {
        label: "learned (RetentionPredictor)".to_string(),
        end_of_run_bloat: total_bloat(&table),
        sweep_attempts,
        wasted_sweeps,
    }
}

fn run_fixed_interval(writes: &[u64], interval: u64) -> Outcome {
    let mut table = MVCCTable::new();
    let mut writes_since_prune: HashMap<u64, u64> = HashMap::new();
    let mut sweep_attempts = 0usize;
    let mut wasted_sweeps = 0usize;

    for (i, &row_id) in writes.iter().enumerate() {
        let commit_ts = i as u64 + 1;
        apply_write(&mut table, row_id, commit_ts);

        let count = writes_since_prune.entry(row_id).or_insert(0);
        *count += 1;
        if *count >= interval {
            *count = 0;
            sweep_attempts += 1;
            let removed = table.prune_row(row_id, horizon_at(commit_ts));
            if removed == 0 {
                wasted_sweeps += 1;
            }
        }
    }

    Outcome {
        label: format!("fixed interval = {interval}"),
        end_of_run_bloat: total_bloat(&table),
        sweep_attempts,
        wasted_sweeps,
    }
}

fn print_outcome(o: &Outcome) {
    println!(
        "  {:<32} end-of-run bloat: {:>6}   sweep attempts: {:>6}   wasted: {:>6} ({:>5.1}%)",
        o.label,
        o.end_of_run_bloat,
        o.sweep_attempts,
        o.wasted_sweeps,
        100.0 * o.wasted_sweeps as f64 / o.sweep_attempts.max(1) as f64
    );
}

#[test]
fn test_retention_bloat_comparison() {
    let writes = build_write_sequence();

    let sweep_every_write = run_fixed_interval(&writes, 1);
    let fixed_4 = run_fixed_interval(&writes, 4);
    let fixed_8 = run_fixed_interval(&writes, 8);
    let fixed_32 = run_fixed_interval(&writes, 32);
    let fixed_128 = run_fixed_interval(&writes, 128);
    let learned = run_learned(&writes);

    println!("\n=== MVCC Retention: Learned Predictor vs Fixed-Interval Sweeping ===");
    println!(
        "{NUM_ROWS} rows ({NUM_HOT_ROWS} hot, {} cold), {TOTAL_COMMITS} commits, \
         80% of writes hit the hot set, horizon lags by up to {HORIZON_LAG_EVERY} commits\n",
        NUM_ROWS - NUM_HOT_ROWS
    );
    for o in [&sweep_every_write, &fixed_4, &fixed_8, &fixed_32, &fixed_128, &learned] {
        print_outcome(o);
    }
    assert!(
        learned.wasted_sweeps < sweep_every_write.wasted_sweeps,
        "learned predictor's wasted sweeps ({}) should be well below sweeping every write ({})",
        learned.wasted_sweeps,
        sweep_every_write.wasted_sweeps
    );
    assert!(
        learned.end_of_run_bloat < fixed_128.end_of_run_bloat,
        "learned predictor's bloat ({}) should be well below the too-sparse fixed_128 policy's ({})",
        learned.end_of_run_bloat,
        fixed_128.end_of_run_bloat
    );
}

#[test]
fn pruning_keeps_what_a_snapshot_at_the_horizon_reads() {
    let mut chain = VersionChain::new();
    chain.push_version(1, vec![1]);
    chain.expire_live(3);
    chain.push_version(3, vec![3]);
    chain.expire_live(5);
    chain.push_version(5, vec![5]);
    assert_eq!(chain.prune(3), 1);
    assert_eq!(chain.read(2), None);
    assert_eq!(chain.read(3), Some(vec![3]));
    assert_eq!(chain.read(9), Some(vec![5]));
    assert_eq!(chain.prune(3), 0);
}
