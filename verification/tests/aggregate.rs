//! Aggregate calls.

use shrestidb::execution::aggregate::{
    compute_aggregate, extract_calls, parse_aggregate, AggregateFn,
};
use shrestidb::execution::catalog::{Column, DataType, TableSchema};
use shrestidb::execution::operators::{Tuple, Value};
use shrestidb::float::{FloatOp, FloatUnit, F64};

fn floats(
) -> FloatUnit<impl Fn(&str) -> Option<u64>, impl Fn(u64) -> String, impl Fn(FloatOp, u64, u64) -> u64>
{
    FloatUnit {
        read: |s: &str| s.parse::<f64>().ok().map(f64::to_bits),
        show: |x: u64| f64::from_bits(x).to_string(),
        compute: |op: FloatOp, x: u64, y: u64| {
            let (a, b) = (f64::from_bits(x), f64::from_bits(y));
            match op {
                FloatOp::Plus => (a + b).to_bits(),
                FloatOp::Minus => (a - b).to_bits(),
                FloatOp::Times => (a * b).to_bits(),
                FloatOp::Over => (a / b).to_bits(),
                FloatOp::SquareRoot => a.sqrt().to_bits(),
                FloatOp::Ceiling => a.ceil().to_bits(),
                FloatOp::Power => a.powi(y as i32).to_bits(),
                FloatOp::OfInteger => ((x as i64) as f64).to_bits(),
                FloatOp::OfCount => (x as f64).to_bits(),
                FloatOp::ToCount => a as u64,
            }
        },
    }
}

fn f(x: f64) -> F64 {
    F64 { bits: x.to_bits() }
}

fn schema() -> TableSchema {
    let mut schema = TableSchema::new(1, "users".to_string());
    schema.add_column(Column {
        id: 1,
        name: "id".to_string(),
        data_type: DataType::Integer,
        nullable: false,
        primary_key: true,
    });
    schema.add_column(Column {
        id: 2,
        name: "age".to_string(),
        data_type: DataType::Integer,
        nullable: false,
        primary_key: false,
    });
    schema
}

fn row(id: i64, age: i64) -> Tuple {
    Tuple {
        values: vec![Value::Integer(id), Value::Integer(age)],
    }
}

#[test]
fn test_parse_aggregate_variants() {
    assert_eq!(parse_aggregate("COUNT(*)"), Some((AggregateFn::Count, None)));
    assert_eq!(
        parse_aggregate("sum(age)"),
        Some((AggregateFn::Sum, Some("age".to_string())))
    );
    assert_eq!(parse_aggregate("age"), None);
    assert_eq!(parse_aggregate("id + 1"), None);
}

#[test]
fn test_compute_count_star() {
    let schema = schema();
    let tuples = vec![row(1, 10), row(2, 20), row(3, 30)];
    assert_eq!(
        compute_aggregate(AggregateFn::Count, None, &schema, &tuples, &floats()),
        Value::Integer(3)
    );
}

#[test]
fn test_compute_sum_and_avg() {
    let schema = schema();
    let tuples = vec![row(1, 10), row(2, 20), row(3, 30)];
    assert_eq!(
        compute_aggregate(AggregateFn::Sum, Some("age"), &schema, &tuples, &floats()),
        Value::Float(f(60.0))
    );
    assert_eq!(
        compute_aggregate(AggregateFn::Avg, Some("age"), &schema, &tuples, &floats()),
        Value::Float(f(20.0))
    );
}

#[test]
fn test_compute_min_max() {
    let schema = schema();
    let tuples = vec![row(1, 10), row(2, 20), row(3, 30)];
    assert_eq!(
        compute_aggregate(AggregateFn::Min, Some("age"), &schema, &tuples, &floats()),
        Value::Float(f(10.0))
    );
    assert_eq!(
        compute_aggregate(AggregateFn::Max, Some("age"), &schema, &tuples, &floats()),
        Value::Float(f(30.0))
    );
}

#[test]
fn test_compute_on_empty_input_is_null_except_count() {
    let schema = schema();
    assert_eq!(compute_aggregate(AggregateFn::Count, None, &schema, &[], &floats()), Value::Integer(0));
    assert_eq!(compute_aggregate(AggregateFn::Sum, Some("age"), &schema, &[], &floats()), Value::Null);
}

#[test]
fn test_compute_unknown_column_is_null() {
    let schema = schema();
    let tuples = vec![row(1, 10)];
    assert_eq!(
        compute_aggregate(AggregateFn::Sum, Some("height"), &schema, &tuples, &floats()),
        Value::Null
    );
}

#[test]
fn test_extract_calls_rewrites_a_single_aggregate() {
    let (rewritten, calls) = extract_calls("COUNT(*) > 1");
    assert_eq!(rewritten, "__having_agg_0 > 1");
    assert_eq!(calls, vec![("__having_agg_0".to_string(), AggregateFn::Count, None)]);
}

#[test]
fn test_extract_calls_recognizes_a_call_with_whitespace_around_the_parens() {
    let (rewritten, calls) = extract_calls("COUNT ( * ) > 1");
    assert_eq!(rewritten, "__having_agg_0 > 1");
    assert_eq!(calls, vec![("__having_agg_0".to_string(), AggregateFn::Count, None)]);
}

#[test]
fn test_extract_calls_handles_multiple_aggregates_and_a_plain_column() {
    let (rewritten, calls) = extract_calls("SUM(amount) > 100 AND dept = 'Eng' AND COUNT(*) < 10");
    assert_eq!(rewritten, "__having_agg_0 > 100 AND dept = 'Eng' AND __having_agg_1 < 10");
    assert_eq!(
        calls,
        vec![
            ("__having_agg_0".to_string(), AggregateFn::Sum, Some("amount".to_string())),
            ("__having_agg_1".to_string(), AggregateFn::Count, None),
        ]
    );
}

#[test]
fn test_extract_calls_on_expression_with_no_aggregates_is_unchanged() {
    let (rewritten, calls) = extract_calls("dept = 'Eng'");
    assert_eq!(rewritten, "dept = 'Eng'");
    assert!(calls.is_empty());
}

#[test]
fn only_a_text_that_is_one_call_is_an_aggregate() {
    assert!(parse_aggregate("COUNT(*) > 1").is_none());
    assert!(parse_aggregate("SUM(a) + SUM(b)").is_none());
    assert!(parse_aggregate("SUM(a").is_none());
    assert!(parse_aggregate("SUM((a)").is_none());
    assert_eq!(
        parse_aggregate(" sum ( a ) "),
        Some((AggregateFn::Sum, Some("a".to_string())))
    );
    assert_eq!(
        parse_aggregate("MAX((a) + (b))"),
        Some((AggregateFn::Max, Some("(a) + (b)".to_string())))
    );
}

#[test]
fn calls_in_parentheses_and_in_other_calls_are_found() {
    let (text, calls) = extract_calls("dept = 1 AND (SUM(x) > 5)");
    assert_eq!(text, "dept = 1 AND (__having_agg_0 > 5)");
    assert_eq!(
        calls,
        vec![("__having_agg_0".to_string(), AggregateFn::Sum, Some("x".to_string()))]
    );
    let (text, calls) = extract_calls("ABS(MIN(x)) > f(2) OR (COUNT ( * ) < 3)");
    assert_eq!(text, "ABS(__having_agg_0) > f(2) OR (__having_agg_1 < 3)");
    assert_eq!(calls.len(), 2);
    assert_eq!(extract_calls("SUM(x > 5").0, "SUM(x > 5");
}
