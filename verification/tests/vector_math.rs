//! Arithmetic on lists of numbers.

use shrestidb::compute::vector_math::VectorOps;
use shrestidb::float::{FloatOp, FloatUnit, F64};

fn floats(
) -> FloatUnit<impl Fn(&str) -> Option<u64>, impl Fn(u64) -> String, impl Fn(FloatOp, u64, u64) -> u64>
{
    FloatUnit {
        read: |s: &str| s.parse::<f64>().ok().map(f64::to_bits),
        show: |x: u64| f64::from_bits(x).to_string(),
        compute: |op: FloatOp, x: u64, y: u64| {
            let (a, b) = (f64::from_bits(x), f64::from_bits(y));
            match op {
                FloatOp::Plus => (a + b).to_bits(),
                FloatOp::Minus => (a - b).to_bits(),
                FloatOp::Times => (a * b).to_bits(),
                FloatOp::Over => (a / b).to_bits(),
                FloatOp::SquareRoot => a.sqrt().to_bits(),
                FloatOp::Ceiling => a.ceil().to_bits(),
                FloatOp::Power => a.powi(y as i32).to_bits(),
                FloatOp::OfInteger => ((x as i64) as f64).to_bits(),
                FloatOp::OfCount => (x as f64).to_bits(),
                FloatOp::ToCount => a as u64,
            }
        },
    }
}

fn f(x: f64) -> F64 {
    F64 { bits: x.to_bits() }
}

fn fv(v: &[f64]) -> Vec<F64> {
    v.iter().map(|x| f(*x)).collect()
}

fn back(v: &[F64]) -> Vec<f64> {
    v.iter().map(|x| f64::from_bits(x.bits)).collect()
}

#[test]
fn test_vector_add() {
    let a = fv(&vec![1.0, 2.0, 3.0, 4.0, 5.0]);
    let b = fv(&vec![4.0, 5.0, 6.0, 7.0, 8.0]);
    let result = VectorOps::add(&a, &b, &floats());
    assert_eq!(back(&result), vec![5.0, 7.0, 9.0, 11.0, 13.0]);
}

#[test]
fn test_vector_multiply() {
    let a = fv(&vec![2.0, 3.0, 4.0, 5.0, 6.0]);
    let b = fv(&vec![3.0, 4.0, 5.0, 6.0, 7.0]);
    let result = VectorOps::multiply(&a, &b, &floats());
    assert_eq!(back(&result), vec![6.0, 12.0, 20.0, 30.0, 42.0]);
}

#[test]
fn test_dot_product() {
    let a = fv(&vec![1.0, 2.0, 3.0, 4.0, 5.0]);
    let b = fv(&vec![4.0, 5.0, 6.0, 7.0, 8.0]);
    let result = VectorOps::dot(&a, &b, &floats());
    assert_eq!(f64::from_bits(result.bits), 100.0);
}

#[test]
fn test_norm_and_cosine() {
    let a = fv(&vec![3.0, 4.0]);
    assert_eq!(f64::from_bits(VectorOps::norm(&a, &floats()).bits), 5.0);

    let b = fv(&vec![6.0, 8.0]);
    let sim = VectorOps::cosine_similarity(&a, &b, &floats());
    assert!((f64::from_bits(sim.bits) - 1.0).abs() < 1e-6);
}
