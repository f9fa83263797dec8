//! Distributions of columns.

use shrestidb::execution::operators::Value;
use shrestidb::float::{FloatOp, FloatUnit, F64};
use shrestidb::optimizer::cardinality::ColumnDistribution;

fn floats(
) -> FloatUnit<impl Fn(&str) -> Option<u64>, impl Fn(u64) -> String, impl Fn(FloatOp, u64, u64) -> u64>
{
    FloatUnit {
        read: |s: &str| s.parse::<f64>().ok().map(f64::to_bits),
        show: |x: u64| f64::from_bits(x).to_string(),
        compute: |op: FloatOp, x: u64, y: u64| {
            let (a, b) = (f64::from_bits(x), f64::from_bits(y));
            match op {
                FloatOp::Plus => (a + b).to_bits(),
                FloatOp::Minus => (a - b).to_bits(),
                FloatOp::Times => (a * b).to_bits(),
                FloatOp::Over => (a / b).to_bits(),
                FloatOp::SquareRoot => a.sqrt().to_bits(),
                FloatOp::Ceiling => a.ceil().to_bits(),
                FloatOp::Power => a.powi(y as i32).to_bits(),
                FloatOp::OfInteger => ((x as i64) as f64).to_bits(),
                FloatOp::OfCount => (x as f64).to_bits(),
                FloatOp::ToCount => a as u64,
            }
        },
    }
}

fn f(x: f64) -> F64 {
    F64 { bits: x.to_bits() }
}

fn fv(v: &[f64]) -> Vec<F64> {
    v.iter().map(|x| f(*x)).collect()
}

#[test]
fn test_numeric_equality_selectivity_uses_real_distinct_count() {
    let values: Vec<f64> = (0..1000).map(|i| (i % 4) as f64).collect();
    let dist = ColumnDistribution::build_numeric(fv(&values), 4, &floats());
    let selectivity = f64::from_bits(dist.estimate_selectivity("=", &Value::Float(f(2.0)), &floats()).unwrap().bits);
    assert!((selectivity - 0.25).abs() < 0.01, "selectivity {selectivity} should be close to 0.25");
}

#[test]
fn test_numeric_range_selectivity_reflects_real_skew() {
    let mut values = vec![0.0; 950];
    values.extend(vec![1.0; 50]);
    let dist = ColumnDistribution::build_numeric(fv(&values), 4, &floats());
    let selectivity = f64::from_bits(dist.estimate_selectivity(">=", &Value::Float(f(1.0)), &floats()).unwrap().bits);
    assert!(
        (selectivity - 0.05).abs() < 0.02,
        "selectivity {selectivity} should be close to the real 0.05, not a fixed 0.5"
    );
}

#[test]
fn test_categorical_equality_selectivity_uses_real_distinct_count() {
    let values: Vec<String> =
        std::iter::repeat("shipped".to_string()).take(950).chain(std::iter::repeat("cancelled".to_string()).take(50)).collect();
    let dist = ColumnDistribution::build_categorical(values);
    let rare = f64::from_bits(dist.estimate_selectivity("=", &Value::String("cancelled".to_string()), &floats()).unwrap().bits);
    assert!((rare - 0.5).abs() < 0.01);
}

#[test]
fn test_categorical_range_operator_returns_none() {
    let dist = ColumnDistribution::build_categorical(vec!["a".to_string(), "b".to_string()]);
    assert!(dist.estimate_selectivity("<", &Value::String("a".to_string()), &floats()).is_none());
}

#[test]
fn test_unrecognized_operator_returns_none() {
    let dist = ColumnDistribution::build_numeric(fv(&vec![1.0, 2.0, 3.0]), 1, &floats());
    assert!(dist.estimate_selectivity("LIKE", &Value::Float(f(1.0)), &floats()).is_none());
}

#[test]
fn test_estimate_row_count_uses_caller_supplied_total_not_analyze_time_snapshot() {
    let dist = ColumnDistribution::build_numeric(fv(&vec![1.0, 2.0, 3.0, 4.0]), 1, &floats());
    let count = dist.estimate_row_count("=", &Value::Float(f(2.0)), 400, &floats()).unwrap();
    assert_eq!(count, 100);
}

#[test]
fn a_value_of_another_type_has_no_share() {
    let words = ColumnDistribution::build_categorical(vec!["a".to_string(), "b".to_string()]);
    assert!(words.estimate_selectivity("=", &Value::Integer(1), &floats()).is_none());
    assert!(words.estimate_selectivity("!=", &Value::Float(f(1.0)), &floats()).is_none());
    assert!(words.estimate_selectivity("=", &Value::Null, &floats()).is_none());
    let truths = words.estimate_selectivity("=", &Value::Boolean(true), &floats()).unwrap();
    assert_eq!(f64::from_bits(truths.bits), 0.5);
    let numbers = ColumnDistribution::build_numeric(fv(&[1.0, 2.0]), 4, &floats());
    assert!(numbers.estimate_selectivity("=", &Value::String("1".to_string()), &floats()).is_none());
}

#[test]
fn an_empty_column_knows_its_operators() {
    let none = ColumnDistribution::build_numeric(Vec::new(), 4, &floats());
    assert!(none.estimate_selectivity("LIKE", &Value::Float(f(1.0)), &floats()).is_none());
    let all = none.estimate_selectivity("<=", &Value::Float(f(1.0)), &floats()).unwrap();
    assert_eq!(f64::from_bits(all.bits), 1.0);
}

#[test]
fn rows_without_a_value_are_counted() {
    let d = ColumnDistribution::build_numeric(fv(&[1.0, 2.0]), 4, &floats()).among(8);
    assert_eq!((d.total_rows(), d.distinct_count()), (8, 2));
    let share = d.estimate_selectivity("<", &Value::Float(f(2.0)), &floats()).unwrap();
    assert_eq!(f64::from_bits(share.bits), 0.125);
}
