//! Staged models.

use shrestidb::float::{FloatOp, FloatUnit, F64};
use shrestidb::index::models::LinearModel;
use shrestidb::index::rmi::{RMIIndex, RMIStage};

fn floats(
) -> FloatUnit<impl Fn(&str) -> Option<u64>, impl Fn(u64) -> String, impl Fn(FloatOp, u64, u64) -> u64>
{
    FloatUnit {
        read: |s: &str| s.parse::<f64>().ok().map(f64::to_bits),
        show: |x: u64| f64::from_bits(x).to_string(),
        compute: |op: FloatOp, x: u64, y: u64| {
            let (a, b) = (f64::from_bits(x), f64::from_bits(y));
            match op {
                FloatOp::Plus => (a + b).to_bits(),
                FloatOp::Minus => (a - b).to_bits(),
                FloatOp::Times => (a * b).to_bits(),
                FloatOp::Over => (a / b).to_bits(),
                FloatOp::SquareRoot => a.sqrt().to_bits(),
                FloatOp::Ceiling => a.ceil().to_bits(),
                FloatOp::Power => a.powi(y as i32).to_bits(),
                FloatOp::OfInteger => ((x as i64) as f64).to_bits(),
                FloatOp::OfCount => (x as f64).to_bits(),
                FloatOp::ToCount => a as u64,
            }
        },
    }
}

fn f(x: f64) -> F64 {
    F64 { bits: x.to_bits() }
}

fn fv(v: &[f64]) -> Vec<F64> {
    v.iter().map(|x| f(*x)).collect()
}

#[test]
fn test_rmi_stage_routing() {
    let model = LinearModel::new(f(2.0), f(0.0));
    let stage = RMIStage::new(vec![model]);

    let route = stage.route(f(5.0), &floats());
    assert_eq!(route, 0);
}

#[test]
fn test_rmi_search() {
    let keys = fv(&[1.0, 2.0, 3.0, 4.0, 5.0]);
    let positions = vec![0, 1, 2, 3, 4];
    let model = LinearModel::new(f(1.0), f(0.0));
    let stage = RMIStage::new(vec![model]);

    let rmi = RMIIndex::new(vec![stage], keys, positions);
    let predicted = rmi.search(f(3.0), &floats());
    assert!(predicted < 5);
}

#[test]
fn test_rmi_heap_bytes_grows_with_key_count() {
    let small = RMIIndex::new(
        vec![RMIStage::new(vec![LinearModel::new(f(1.0), f(0.0))])],
        fv(&[1.0]),
        vec![0],
    );
    let n = 100_000;
    let keys: Vec<f64> = (0..n).map(|i| i as f64).collect();
    let positions: Vec<usize> = (0..n).collect();
    let big = RMIIndex::new(
        vec![RMIStage::new(vec![LinearModel::new(f(1.0), f(0.0))])],
        fv(&keys),
        positions,
    );
    assert!(big.heap_bytes() > small.heap_bytes());
}

#[test]
fn a_search_may_have_more_positions_than_keys() {
    let stage = RMIStage::new(vec![LinearModel::new(f(1.0), f(0.0))]);
    let rmi = RMIIndex::new(vec![stage], fv(&[1.0, 2.0, 3.0]), vec![0, 1, 2, 3, 4, 5, 6]);
    assert_eq!(rmi.find_exact(f(3.0), 2, &floats()), Some(2));
    assert_eq!(rmi.find_exact(f(5.0), 2, &floats()), None);
}
