//! Lines through points.

use shrestidb::float::{FloatOp, FloatUnit, F64};
use shrestidb::ml::regression::LinearRegression;

fn floats(
) -> FloatUnit<impl Fn(&str) -> Option<u64>, impl Fn(u64) -> String, impl Fn(FloatOp, u64, u64) -> u64>
{
    FloatUnit {
        read: |s: &str| s.parse::<f64>().ok().map(f64::to_bits),
        show: |x: u64| f64::from_bits(x).to_string(),
        compute: |op: FloatOp, x: u64, y: u64| {
            let (a, b) = (f64::from_bits(x), f64::from_bits(y));
            match op {
                FloatOp::Plus => (a + b).to_bits(),
                FloatOp::Minus => (a - b).to_bits(),
                FloatOp::Times => (a * b).to_bits(),
                FloatOp::Over => (a / b).to_bits(),
                FloatOp::SquareRoot => a.sqrt().to_bits(),
                FloatOp::Ceiling => a.ceil().to_bits(),
                FloatOp::Power => a.powi(y as i32).to_bits(),
                FloatOp::OfInteger => ((x as i64) as f64).to_bits(),
                FloatOp::OfCount => (x as f64).to_bits(),
                FloatOp::ToCount => a as u64,
            }
        },
    }
}

fn f(x: f64) -> F64 {
    F64 { bits: x.to_bits() }
}

fn fv(v: &[f64]) -> Vec<F64> {
    v.iter().map(|x| f(*x)).collect()
}

#[test]
fn test_linear_regression_fit() {
    let x = fv(&vec![1.0, 2.0, 3.0, 4.0, 5.0]);
    let y = fv(&vec![2.0, 4.0, 6.0, 8.0, 10.0]);

    let model = LinearRegression::fit(&x, &y, &floats()).expect("Fit failed");
    assert!((f64::from_bits(model.coefficients[0].bits) - 2.0).abs() < 0.01);
}

#[test]
fn test_linear_regression_predict() {
    let x = fv(&vec![1.0, 2.0, 3.0]);
    let y = fv(&vec![2.0, 4.0, 6.0]);

    let model = LinearRegression::fit(&x, &y, &floats()).expect("Fit failed");
    let pred = model.predict(f(2.0), &floats());
    assert!((f64::from_bits(pred.bits) - 4.0).abs() < 0.01);
}

#[test]
fn test_r_squared() {
    let x = fv(&vec![1.0, 2.0, 3.0, 4.0, 5.0]);
    let y = fv(&vec![2.0, 4.0, 6.0, 8.0, 10.0]);

    let model = LinearRegression::fit(&x, &y, &floats()).expect("Fit failed");
    let r2 = model.r_squared(&x, &y, &floats());
    assert!(f64::from_bits(r2.bits) > 0.99);
}
