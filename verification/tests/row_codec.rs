//! Literals, predicates, assignments and placeholders.

use shrestidb::execution::catalog::{Column, DataType, TableSchema};
use shrestidb::execution::operators::{Tuple, Value};
use shrestidb::execution::row_codec::{
    evaluate_predicate, literal_repr, parse_literal_checked, parse_value, scan_placeholders, substitute_placeholders,
    substitute_token, CompiledAssignment,
};
use shrestidb::float::{FloatOp, FloatUnit, F64};

fn floats(
) -> FloatUnit<impl Fn(&str) -> Option<u64>, impl Fn(u64) -> String, impl Fn(FloatOp, u64, u64) -> u64>
{
    FloatUnit {
        read: |s: &str| s.parse::<f64>().ok().map(f64::to_bits),
        show: |x: u64| f64::from_bits(x).to_string(),
        compute: |op: FloatOp, x: u64, y: u64| {
            let (a, b) = (f64::from_bits(x), f64::from_bits(y));
            match op {
                FloatOp::Plus => (a + b).to_bits(),
                FloatOp::Minus => (a - b).to_bits(),
                FloatOp::Times => (a * b).to_bits(),
                FloatOp::Over => (a / b).to_bits(),
                FloatOp::SquareRoot => a.sqrt().to_bits(),
                FloatOp::Ceiling => a.ceil().to_bits(),
                FloatOp::Power => a.powi(y as i32).to_bits(),
                FloatOp::OfInteger => ((x as i64) as f64).to_bits(),
                FloatOp::OfCount => (x as f64).to_bits(),
                FloatOp::ToCount => a as u64,
            }
        },
    }
}

fn f(x: f64) -> F64 {
    F64 { bits: x.to_bits() }
}

fn schema() -> TableSchema {
    let mut schema = TableSchema::new(1, "users".to_string());
    schema.add_column(Column {
        id: 1,
        name: "id".to_string(),
        data_type: DataType::Integer,
        nullable: false,
        primary_key: true,
    });
    schema.add_column(Column {
        id: 2,
        name: "name".to_string(),
        data_type: DataType::String,
        nullable: false,
        primary_key: false,
    });
    schema.add_column(Column {
        id: 3,
        name: "age".to_string(),
        data_type: DataType::Integer,
        nullable: false,
        primary_key: false,
    });
    schema.add_column(Column {
        id: 4,
        name: "active".to_string(),
        data_type: DataType::Boolean,
        nullable: false,
        primary_key: false,
    });
    schema
}

fn row(id: i64, name: &str, age: i64, active: bool) -> Tuple {
    Tuple {
        values: vec![
            Value::Integer(id),
            Value::String(name.to_string()),
            Value::Integer(age),
            Value::Boolean(active),
        ],
    }
}

#[test]
fn test_parse_value_roundtrip() {
    assert_eq!(parse_value("42", DataType::Integer, &floats()), Value::Integer(42));
    assert_eq!(parse_value("3.14", DataType::Float, &floats()), Value::Float(f(3.14)));
    assert_eq!(
        parse_value("'Alice'", DataType::String, &floats()),
        Value::String("Alice".to_string())
    );
    assert_eq!(parse_value("true", DataType::Boolean, &floats()), Value::Boolean(true));
}

#[test]
fn test_evaluate_numeric_predicate() {
    let schema = schema();
    assert_eq!(
        evaluate_predicate("age > 18", &schema, &row(1, "Bob", 30, true), &floats()),
        Some(true)
    );
    assert_eq!(
        evaluate_predicate("age > 18", &schema, &row(1, "Kid", 10, true), &floats()),
        Some(false)
    );
    assert_eq!(
        evaluate_predicate("age >= 30", &schema, &row(1, "Bob", 30, true), &floats()),
        Some(true)
    );
}

#[test]
fn test_evaluate_string_predicate_with_spaces() {
    let schema = schema();
    let matching = row(1, "John Smith", 40, true);
    assert_eq!(
        evaluate_predicate("name = 'John Smith'", &schema, &matching, &floats()),
        Some(true)
    );
    assert_eq!(
        evaluate_predicate("name = 'John Smith'", &schema, &row(2, "Nobody", 40, true), &floats()),
        Some(false)
    );
}

#[test]
fn test_evaluate_unknown_column_returns_none() {
    let schema = schema();
    assert_eq!(
        evaluate_predicate("height > 100", &schema, &row(1, "Bob", 30, true), &floats()),
        None
    );
}

#[test]
fn test_evaluate_column_to_column_comparison() {
    let schema = schema();
    assert_eq!(
        evaluate_predicate("id = age", &schema, &row(30, "Bob", 30, true), &floats()),
        Some(true)
    );
    assert_eq!(
        evaluate_predicate("id = age", &schema, &row(1, "Bob", 30, true), &floats()),
        Some(false)
    );
}

#[test]
fn test_evaluate_and() {
    let schema = schema();
    assert_eq!(
        evaluate_predicate("age > 18 AND active = true", &schema, &row(1, "Bob", 30, true), &floats()),
        Some(true)
    );
    assert_eq!(
        evaluate_predicate("age > 18 AND active = true", &schema, &row(1, "Bob", 30, false), &floats()),
        Some(false)
    );
    assert_eq!(
        evaluate_predicate("age > 18 AND active = true", &schema, &row(1, "Kid", 10, true), &floats()),
        Some(false)
    );
}

#[test]
fn test_evaluate_or() {
    let schema = schema();
    assert_eq!(
        evaluate_predicate("name = 'Bob' OR name = 'Alice'", &schema, &row(1, "Alice", 30, true), &floats()),
        Some(true)
    );
    assert_eq!(
        evaluate_predicate("name = 'Bob' OR name = 'Alice'", &schema, &row(1, "Carol", 30, true), &floats()),
        Some(false)
    );
}

fn row_with_null_age(id: i64, name: &str, active: bool) -> Tuple {
    Tuple { values: vec![Value::Integer(id), Value::String(name.to_string()), Value::Null, Value::Boolean(active)] }
}

#[test]
fn test_comparison_against_null_is_excluded_not_included() {
    let schema = schema();
    let bob = row_with_null_age(1, "Bob", true);
    assert_eq!(evaluate_predicate("age > 18", &schema, &bob, &floats()), Some(false));
    assert_eq!(evaluate_predicate("age <= 18", &schema, &bob, &floats()), Some(false));
    assert_eq!(evaluate_predicate("age = 30", &schema, &bob, &floats()), Some(false));
    assert_eq!(evaluate_predicate("age != 30", &schema, &bob, &floats()), Some(false));
}

#[test]
fn test_or_short_circuits_true_even_with_an_unknown_operand() {
    let schema = schema();
    let bob = row_with_null_age(1, "Bob", true);
    assert_eq!(evaluate_predicate("id = 1 OR age > 1000", &schema, &bob, &floats()), Some(true));
}

#[test]
fn test_and_with_an_unknown_operand_is_excluded_regardless_of_the_other_side() {
    let schema = schema();
    let bob = row_with_null_age(1, "Bob", true);
    assert_eq!(evaluate_predicate("id = 1 AND age > 1000", &schema, &bob, &floats()), Some(false));
    assert_eq!(evaluate_predicate("id = 99 AND age > 1000", &schema, &bob, &floats()), Some(false));
}

#[test]
fn test_evaluate_and_binds_tighter_than_or() {
    let schema = schema();
    let predicate = "age > 18 AND active = true OR name = 'Kid'";
    assert_eq!(evaluate_predicate(predicate, &schema, &row(1, "Kid", 5, false), &floats()), Some(true));
    assert_eq!(
        evaluate_predicate(predicate, &schema, &row(1, "Other", 5, false), &floats()),
        Some(false)
    );
    assert_eq!(evaluate_predicate(predicate, &schema, &row(1, "Bob", 30, true), &floats()), Some(true));
}

#[test]
fn test_evaluate_parenthesized_or_inside_and() {
    let schema = schema();
    let predicate = "age > 18 AND (name = 'Bob' OR name = 'Alice')";
    assert_eq!(
        evaluate_predicate(predicate, &schema, &row(1, "Alice", 30, true), &floats()),
        Some(true)
    );
    assert_eq!(
        evaluate_predicate(predicate, &schema, &row(1, "Alice", 10, true), &floats()),
        Some(false)
    );
    assert_eq!(
        evaluate_predicate(predicate, &schema, &row(1, "Carol", 30, true), &floats()),
        Some(false)
    );
}

#[test]
fn test_evaluate_malformed_compound_returns_none() {
    let schema = schema();
    assert_eq!(
        evaluate_predicate("age > 18 AND", &schema, &row(1, "Bob", 30, true), &floats()),
        None
    );
    assert_eq!(
        evaluate_predicate("age > 18 AND active = true )", &schema, &row(1, "Bob", 30, true), &floats()),
        None
    );
}

#[test]
fn test_compiled_assignment_plain_literal() {
    let schema = schema();
    let compiled = CompiledAssignment::compile("31", &schema, DataType::Integer, &floats()).unwrap();
    assert_eq!(compiled.eval(&row(1, "Bob", 30, true), &floats()), Value::Integer(31));
}

#[test]
fn test_compiled_assignment_column_plus_literal() {
    let schema = schema();
    let compiled = CompiledAssignment::compile("age + 1", &schema, DataType::Integer, &floats()).unwrap();
    assert_eq!(compiled.eval(&row(1, "Bob", 30, true), &floats()), Value::Integer(31));
}

#[test]
fn test_compiled_assignment_column_minus_literal() {
    let schema = schema();
    let compiled = CompiledAssignment::compile("age - 5", &schema, DataType::Integer, &floats()).unwrap();
    assert_eq!(compiled.eval(&row(1, "Bob", 30, true), &floats()), Value::Integer(25));
}

#[test]
fn test_compiled_assignment_column_times_literal() {
    let schema = schema();
    let compiled = CompiledAssignment::compile("age * 2", &schema, DataType::Integer, &floats()).unwrap();
    assert_eq!(compiled.eval(&row(1, "Bob", 30, true), &floats()), Value::Integer(60));
}

#[test]
fn test_compiled_assignment_column_to_column() {
    let schema = schema();
    let compiled = CompiledAssignment::compile("id", &schema, DataType::Integer, &floats()).unwrap();
    assert_eq!(compiled.eval(&row(7, "Bob", 30, true), &floats()), Value::Integer(7));

    let compiled = CompiledAssignment::compile("id + age", &schema, DataType::Integer, &floats()).unwrap();
    assert_eq!(compiled.eval(&row(7, "Bob", 30, true), &floats()), Value::Integer(37));
}

#[test]
fn test_compiled_assignment_division_by_zero_is_null() {
    let schema = schema();
    let compiled = CompiledAssignment::compile("age / 0", &schema, DataType::Integer, &floats()).unwrap();
    assert_eq!(compiled.eval(&row(1, "Bob", 30, true), &floats()), Value::Null);
}

#[test]
fn test_compiled_assignment_unsupported_shape_is_a_compile_error() {
    let schema = schema();
    assert!(CompiledAssignment::compile("age + 1 + 1", &schema, DataType::Integer, &floats()).is_none());
}

#[test]
fn test_compiled_assignment_function_call_is_a_compile_error_not_null_or_garbage() {
    let schema = schema();
    assert!(CompiledAssignment::compile("ABS(age)", &schema, DataType::Integer, &floats()).is_none());

    let mut string_schema = TableSchema::new(1, "users".to_string());
    string_schema.add_column(Column { id: 1, name: "name".to_string(), data_type: DataType::String, nullable: false, primary_key: false });
    assert!(CompiledAssignment::compile("UPPER(name)", &string_schema, DataType::String, &floats()).is_none());
}

#[test]
fn test_compiled_assignment_explicit_null_literal_still_works() {
    let schema = schema();
    let compiled = CompiledAssignment::compile("NULL", &schema, DataType::Integer, &floats()).unwrap();
    assert_eq!(compiled.eval(&row(1, "Bob", 30, true), &floats()), Value::Null);
}

#[test]
fn test_compiled_assignment_unquoted_text_on_string_column_is_a_compile_error() {
    let mut string_schema = TableSchema::new(1, "users".to_string());
    string_schema.add_column(Column { id: 1, name: "name".to_string(), data_type: DataType::String, nullable: false, primary_key: false });
    assert!(CompiledAssignment::compile("Bob", &string_schema, DataType::String, &floats()).is_none());
    let compiled = CompiledAssignment::compile("'Bob'", &string_schema, DataType::String, &floats()).unwrap();
    assert_eq!(compiled.eval(&row(1, "Bob", 30, true), &floats()), Value::String("Bob".to_string()));
}

#[test]
fn test_compiled_assignment_negative_literal_still_works() {
    let schema = schema();
    let compiled = CompiledAssignment::compile("-5", &schema, DataType::Integer, &floats()).unwrap();
    assert_eq!(compiled.eval(&row(1, "Bob", 30, true), &floats()), Value::Integer(-5));
}

#[test]
fn test_literal_repr_roundtrips_through_parse_value() {
    assert_eq!(parse_value(&literal_repr(&Value::Integer(42), &floats()), DataType::Integer, &floats()), Value::Integer(42));
    assert_eq!(parse_value(&literal_repr(&Value::Float(f(3.5)), &floats()), DataType::Float, &floats()), Value::Float(f(3.5)));
    assert_eq!(
        parse_value(&literal_repr(&Value::String("Bob".to_string()), &floats()), DataType::String, &floats()),
        Value::String("Bob".to_string())
    );
    assert_eq!(parse_value(&literal_repr(&Value::Boolean(true), &floats()), DataType::Boolean, &floats()), Value::Boolean(true));
}

#[test]
fn test_scan_placeholders_counts_positional() {
    let mut positional = 0;
    let mut indexed = 0;
    scan_placeholders("age > ? AND name = ?", &mut positional, &mut indexed).unwrap();
    assert_eq!(positional, 2);
    assert_eq!(indexed, 0);
}

#[test]
fn test_scan_placeholders_tracks_max_indexed() {
    let mut positional = 0;
    let mut indexed = 0;
    scan_placeholders("age > $2 AND name = $1", &mut positional, &mut indexed).unwrap();
    assert_eq!(positional, 0);
    assert_eq!(indexed, 2);
}

#[test]
fn test_scan_placeholders_rejects_mixed_styles() {
    let mut positional = 0;
    let mut indexed = 0;
    assert!(scan_placeholders("age > ? AND name = $1", &mut positional, &mut indexed).is_err());
}

#[test]
fn test_scan_placeholders_ignores_quoted_question_mark() {
    let mut positional = 0;
    let mut indexed = 0;
    scan_placeholders("name = '?'", &mut positional, &mut indexed).unwrap();
    assert_eq!(positional, 0);
    assert_eq!(indexed, 0);
}

#[test]
fn test_substitute_placeholders_positional() {
    let mut next = 0;
    let params = vec![Value::Integer(18), Value::String("Bob".to_string())];
    let out = substitute_placeholders("age > ? AND name = ?", &params, &mut next, &floats()).unwrap();
    assert_eq!(out, "age > 18 AND name = 'Bob'");
    assert_eq!(next, 2);
}

#[test]
fn test_substitute_placeholders_indexed_out_of_order() {
    let mut next = 0;
    let params = vec![Value::Integer(18), Value::String("Bob".to_string())];
    let out = substitute_placeholders("name = $2 AND age > $1", &params, &mut next, &floats()).unwrap();
    assert_eq!(out, "name = 'Bob' AND age > 18");
}

#[test]
fn test_substitute_placeholders_missing_param_errors() {
    let mut next = 0;
    let params = vec![Value::Integer(18)];
    assert!(substitute_placeholders("age > ? AND name = ?", &params, &mut next, &floats()).is_err());
}

#[test]
fn test_substitute_token_matches_substitute_placeholders_token_by_token() {
    let params = vec![Value::Integer(42)];

    let mut next_a = 0;
    let whole = substitute_placeholders("id = ?", &params, &mut next_a, &floats()).unwrap();

    let mut next_b = 0;
    let left = substitute_token("id", &params, &mut next_b, &floats()).unwrap();
    let op = substitute_token("=", &params, &mut next_b, &floats()).unwrap();
    let right = substitute_token("?", &params, &mut next_b, &floats()).unwrap();

    assert_eq!(whole, format!("{left} {op} {right}"));
    assert_eq!(next_a, next_b);
}

#[test]
fn test_substitute_token_indexed_placeholder() {
    let params = vec![Value::Integer(18), Value::String("Bob".to_string())];
    let mut next = 0;
    assert_eq!(substitute_token("$2", &params, &mut next, &floats()).unwrap(), "'Bob'");
    assert_eq!(next, 0);
}

#[test]
fn test_substitute_token_non_placeholder_passes_through_unchanged() {
    let mut next = 0;
    assert_eq!(substitute_token("id", &[], &mut next, &floats()).unwrap(), "id");
    assert_eq!(next, 0);
}

#[test]
fn literals_that_must_be_literals_read_back() {
    let values = [
        (Value::Integer(-7), DataType::Integer),
        (Value::Float(f(1.5)), DataType::Float),
        (Value::String("NULL".to_string()), DataType::String),
        (Value::Boolean(true), DataType::Boolean),
        (Value::Null, DataType::Float),
    ];
    for (v, t) in values {
        let text = literal_repr(&v, &floats());
        assert_eq!(parse_literal_checked(&text, t, &floats()), Some(v));
    }
}

#[test]
fn the_order_of_two_comparisons_is_free() {
    let row = Tuple {
        values: vec![Value::Integer(1), Value::String("Ann".to_string()), Value::Integer(30)],
    };
    let truth = |text: &str| evaluate_predicate(text, &schema(), &row, &floats());
    for (a, b) in [("id = 1", "name = 'a OR b'"), ("id = 2", "age > 3"), ("id > 0", "nobody = 1")] {
        assert_eq!(truth(&format!("{a} AND {b}")), truth(&format!("{b} AND {a}")));
        assert_eq!(truth(&format!("{a} OR {b}")), truth(&format!("{b} OR {a}")));
    }
    assert_eq!(truth("id = 1 OR name = 'a OR b'"), Some(true));
    assert_eq!(truth("id = 1 AND name = 'a OR b'"), Some(false));
    assert_eq!(truth("id > 0 OR nobody = 1"), None);
}
