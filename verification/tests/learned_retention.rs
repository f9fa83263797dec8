//! When a row is worth a sweep.

use shrestidb::execution::learned_retention::{
    jittered_bootstrap, RetentionPredictor, BOOTSTRAP_INTERVAL,
};
use shrestidb::float::{FloatOp, FloatUnit};

fn floats(
) -> FloatUnit<impl Fn(&str) -> Option<u64>, impl Fn(u64) -> String, impl Fn(FloatOp, u64, u64) -> u64>
{
    FloatUnit {
        read: |s: &str| s.parse::<f64>().ok().map(f64::to_bits),
        show: |x: u64| f64::from_bits(x).to_string(),
        compute: |op: FloatOp, x: u64, y: u64| {
            let (a, b) = (f64::from_bits(x), f64::from_bits(y));
            match op {
                FloatOp::Plus => (a + b).to_bits(),
                FloatOp::Minus => (a - b).to_bits(),
                FloatOp::Times => (a * b).to_bits(),
                FloatOp::Over => (a / b).to_bits(),
                FloatOp::SquareRoot => a.sqrt().to_bits(),
                FloatOp::Ceiling => a.ceil().to_bits(),
                FloatOp::Power => a.powi(y as i32).to_bits(),
                FloatOp::OfInteger => ((x as i64) as f64).to_bits(),
                FloatOp::OfCount => (x as f64).to_bits(),
                FloatOp::ToCount => a as u64,
            }
        },
    }
}

#[test]
fn test_bootstraps_before_model_exists() {
    let mut p = RetentionPredictor::new();
    let threshold = jittered_bootstrap(1, 1);
    for _ in 0..threshold - 1 {
        p.record_write(1, 1);
        assert!(!p.should_prune(1, 1, &floats()));
    }
    p.record_write(1, 1);
    assert!(p.should_prune(1, 1, &floats()));
}

#[test]
fn test_jittered_bootstrap_stays_within_a_small_range_of_the_original_constant() {
    for table_id in 0..5 {
        for row_id in 0..50 {
            let t = jittered_bootstrap(table_id, row_id);
            assert!(
                (BOOTSTRAP_INTERVAL - 2..=BOOTSTRAP_INTERVAL + 2).contains(&t),
                "jittered threshold {t} for ({table_id}, {row_id}) escaped the intended small range"
            );
        }
    }
}

#[test]
fn test_jittered_bootstrap_gives_different_rows_different_thresholds() {
    let thresholds: std::collections::HashSet<u64> = (0..20).map(|row_id| jittered_bootstrap(1, row_id)).collect();
    assert!(thresholds.len() > 1, "20 different rows all got the identical bootstrap threshold");
}
#[test]
fn test_model_eventually_fits_under_natural_driven_usage_not_hand_fed_samples() {
    let mut p = RetentionPredictor::new();
    for row_id in 0..10u64 {
        for _ in 0..400 {
            p.record_write(1, row_id);
            if p.should_prune(1, row_id, &floats()) {
                p.record_prune_result(1, row_id, 1, &floats());
            }
        }
    }
    assert!(p.has_model(), "model should have fit from natural, varied-per-row bootstrap sweeps alone");
}

#[test]
fn test_no_writes_never_prunes() {
    let p = RetentionPredictor::new();
    assert!(!p.should_prune(1, 1, &floats()));
}

#[test]
fn test_model_fits_and_predicts_from_varied_samples() {
    let mut p = RetentionPredictor::new();
    for i in 0..40usize {
        let writes = 2 + (i % 6) * 2;
        for _ in 0..writes {
            p.record_write(1, 1);
        }
        p.record_prune_result(1, 1, writes, &floats());
    }
    assert!(p.has_model());
}

#[test]
fn test_high_predicted_buildup_triggers_prune() {
    let mut p = RetentionPredictor::new();
    let cycle = [1.0, 3.0, 5.0, 7.0, 9.0];
    for i in 0..40usize {
        let x = cycle[i % cycle.len()];
        for _ in 0..(x as u64) {
            p.record_write(2, 2);
        }
        p.record_prune_result(2, 2, x as usize, &floats());
    }
    assert!(p.has_model());
    p.record_write(3, 3);
    p.record_write(3, 3);
    assert!(!p.should_prune(3, 3, &floats()));
    for _ in 0..6 {
        p.record_write(4, 4);
    }
    assert!(p.should_prune(4, 4, &floats()));
}
