//! Literals: from text to value and back.

use vstd::prelude::*;
use crate::execution::catalog::DataType;
use crate::execution::operators::{Datum, Value};
use crate::float::{FloatModel, Floats};
use crate::text::{
    all_digits, ascii_upper, decimal, decimal_reads_back, digits, eq_ignore_case, integer_reading,
    is_digit, is_space, join3, lemma_digits_read_back, parse_integer, quoted, same,
    same_but_for_case, signed_to_text, strip_quotes, trim, trimmed, unquote, without_quotes,
};

verus! {

/// The truth value that a text names.
pub open spec fn boolean_reading(s: Seq<char>) -> Option<bool> {
    if s == "true"@ {
        Some(true)
    } else if s == "false"@ {
        Some(false)
    } else {
        None
    }
}

fn parse_boolean(s: &str) -> (r: Option<bool>)
    ensures
        r == boolean_reading(s@),
{
    proof {
        reveal_strlit("true");
        reveal_strlit("false");
    }
    if same(s, "true") {
        Some(true)
    } else if same(s, "false") {
        Some(false)
    } else {
        None
    }
}

/// What `raw` stands for in a column of type `ty`; null where it does not
/// read as that type.
pub open spec fn value_reading(raw: Seq<char>, ty: DataType, fl: FloatModel) -> Datum {
    let s = trimmed(raw);
    match ty {
        DataType::Integer | DataType::Timestamp => match integer_reading(s) {
            Some(i) => Datum::Integer(i),
            None => Datum::Null,
        },
        DataType::Float => match (fl.reads)(s) {
            Some(x) => Datum::Float(x),
            None => Datum::Null,
        },
        DataType::Boolean => match boolean_reading(s) {
            Some(b) => Datum::Boolean(b),
            None => Datum::Null,
        },
        DataType::String => Datum::Text(without_quotes(s)),
    }
}

/// Reads a literal for a column of type `data_type`; null where it does not
/// read as that type.
pub fn parse_value<F: Floats>(raw: &str, data_type: DataType, floats: &F) -> (r: Value)
    requires
        floats.sound(),
    ensures
        r@ == value_reading(raw@, data_type, floats.model()),
{
    let s = trim(raw);
    match data_type {
        DataType::Integer | DataType::Timestamp => match parse_integer(s.as_str()) {
            Some(i) => Value::Integer(i),
            None => Value::Null,
        },
        DataType::Float => match floats.read_float(s.as_str()) {
            Some(x) => Value::Float(x),
            None => Value::Null,
        },
        DataType::Boolean => match parse_boolean(s.as_str()) {
            Some(b) => Value::Boolean(b),
            None => Value::Null,
        },
        DataType::String => Value::String(strip_quotes(s.as_str())),
    }
}

/// What `raw` stands for in a column of type `ty`, where it must be a literal
/// of that type or the word `NULL`. Text must be quoted.
pub open spec fn literal_reading(raw: Seq<char>, ty: DataType, fl: FloatModel) -> Option<Datum> {
    let s = trimmed(raw);
    if same_but_for_case(s, "NULL"@) {
        Some(Datum::Null)
    } else {
        match ty {
            DataType::Integer | DataType::Timestamp => match integer_reading(s) {
                Some(i) => Some(Datum::Integer(i)),
                None => None,
            },
            DataType::Float => match (fl.reads)(s) {
                Some(x) => Some(Datum::Float(x)),
                None => None,
            },
            DataType::Boolean => match boolean_reading(s) {
                Some(b) => Some(Datum::Boolean(b)),
                None => None,
            },
            DataType::String => match quoted(s) {
                Some(t) => Some(Datum::Text(t)),
                None => None,
            },
        }
    }
}

/// A value that may be missing, as its model.
pub open spec fn optional_datum(v: Option<Value>) -> Option<Datum> {
    match v {
        Some(x) => Some(x@),
        None => None,
    }
}

/// Reads a literal for a column of type `data_type`, or the word `NULL`;
/// `None` where `token` is neither.
pub fn parse_literal_checked<F: Floats>(token: &str, data_type: DataType, floats: &F) -> (r: Option<
    Value,
>)
    requires
        floats.sound(),
    ensures
        optional_datum(r) == literal_reading(token@, data_type, floats.model()),
{
    let s = trim(token);
    if eq_ignore_case(s.as_str(), "NULL") {
        return Some(Value::Null);
    }
    match data_type {
        DataType::Integer | DataType::Timestamp => match parse_integer(s.as_str()) {
            Some(i) => Some(Value::Integer(i)),
            None => None,
        },
        DataType::Float => match floats.read_float(s.as_str()) {
            Some(x) => Some(Value::Float(x)),
            None => None,
        },
        DataType::Boolean => match parse_boolean(s.as_str()) {
            Some(b) => Some(Value::Boolean(b)),
            None => None,
        },
        DataType::String => match unquote(s.as_str()) {
            Some(t) => Some(Value::String(t)),
            None => None,
        },
    }
}

/// What `raw` stands for by its own shape: quoted text, or the first of
/// integer, float and truth value that it reads as.
pub open spec fn shaped_reading(raw: Seq<char>, fl: FloatModel) -> Option<Datum> {
    let s = trimmed(raw);
    if quoted(s) is Some {
        Some(Datum::Text(quoted(s)->0))
    } else if integer_reading(s) is Some {
        Some(Datum::Integer(integer_reading(s)->0))
    } else if (fl.reads)(s) is Some {
        Some(Datum::Float((fl.reads)(s)->0))
    } else if boolean_reading(s) is Some {
        Some(Datum::Boolean(boolean_reading(s)->0))
    } else {
        None
    }
}

/// Reads a literal by its own shape.
pub fn parse_literal_value<F: Floats>(token: &str, floats: &F) -> (r: Option<Value>)
    requires
        floats.sound(),
    ensures
        optional_datum(r) == shaped_reading(token@, floats.model()),
{
    let s = trim(token);
    if let Some(t) = unquote(s.as_str()) {
        return Some(Value::String(t));
    }
    if let Some(i) = parse_integer(s.as_str()) {
        return Some(Value::Integer(i));
    }
    if let Some(x) = floats.read_float(s.as_str()) {
        return Some(Value::Float(x));
    }
    match parse_boolean(s.as_str()) {
        Some(b) => Some(Value::Boolean(b)),
        None => None,
    }
}

/// The name of a truth value.
pub open spec fn boolean_text(b: bool) -> Seq<char> {
    if b { "true"@ } else { "false"@ }
}

/// A value as a result row shows it.
pub open spec fn shown(d: Datum, fl: FloatModel) -> Seq<char> {
    match d {
        Datum::Integer(i) => decimal(i as int),
        Datum::Float(x) => (fl.shows)(x),
        Datum::Text(s) => s,
        Datum::Boolean(b) => boolean_text(b),
        Datum::Null => "NULL"@,
    }
}

/// Renders a value for a result row.
pub fn value_to_string<F: Floats>(value: &Value, floats: &F) -> (r: String)
    requires
        floats.sound(),
    ensures
        r@ == shown(value@, floats.model()),
{
    match value {
        Value::Integer(i) => signed_to_text(*i),
        Value::Float(x) => floats.show_float(*x),
        Value::String(s) => s.clone(),
        Value::Boolean(b) => if *b { "true".to_owned() } else { "false".to_owned() },
        Value::Null => "NULL".to_owned(),
    }
}

/// A value as a statement would write it: text in quotes, the rest bare.
pub open spec fn literal_text(d: Datum, fl: FloatModel) -> Seq<char> {
    match d {
        Datum::Text(s) => "'"@ + s + "'"@,
        _ => shown(d, fl),
    }
}

/// Renders a value as a statement would write it.
pub fn literal_repr<F: Floats>(value: &Value, floats: &F) -> (r: String)
    requires
        floats.sound(),
    ensures
        r@ == literal_text(value@, floats.model()),
{
    match value {
        Value::String(s) => join3("'", s.as_str(), "'"),
        _ => value_to_string(value, floats),
    }
}

proof fn lemma_trimmed_is_itself(s: Seq<char>)
    requires
        s.len() > 0,
        !is_space(s[0]),
        !is_space(s.last()),
    ensures
        trimmed(s) == s,
{
}

/// The type of column that holds a value.
pub open spec fn type_of(d: Datum) -> DataType {
    match d {
        Datum::Integer(_) => DataType::Integer,
        Datum::Float(_) => DataType::Float,
        Datum::Text(_) => DataType::String,
        Datum::Boolean(_) => DataType::Boolean,
        Datum::Null => DataType::Integer,
    }
}

/// Whether a column of a type holds a value: null in any, an integer also as a timestamp.
pub open spec fn fits(d: Datum, ty: DataType) -> bool {
    ty == type_of(d) || d is Null || d is Integer && ty == DataType::Timestamp
}

/// A value that was rendered as a literal reads back as itself in a column that holds
/// it where it must be a literal. Where it need not be one, every value but null does so
/// too, and null in a column of integers.
/// A float does so where the float unit reads back what it prints, and does not print
/// the word `NULL`.
pub proof fn literals_read_back(d: Datum, ty: DataType, fl: FloatModel)
    requires
        fits(d, ty),
        d matches Datum::Float(x) ==> (fl.reads)(trimmed((fl.shows)(x))) == Some(x)
            && !same_but_for_case(trimmed((fl.shows)(x)), "NULL"@),
    ensures
        literal_reading(literal_text(d, fl), ty, fl) == Some(d),
        ty == type_of(d) || d is Integer ==> value_reading(literal_text(d, fl), ty, fl) == d,
{
    reveal_strlit("NULL");
    assert("NULL"@[0] == 'N' && "NULL"@[1] == 'U');
    match d {
        Datum::Integer(i) => {
            decimal_reads_back(i);
            let s = decimal(i as int);
            lemma_decimal_shape(i as int);
            lemma_trimmed_is_itself(s);
            lemma_not_null(s);
        },
        Datum::Text(t) => {
            reveal_strlit("'");
            let s = "'"@ + t + "'"@;
            assert(s[0] == '\'');
            assert(s.last() == '\'');
            lemma_trimmed_is_itself(s);
            lemma_not_null(s);
            assert(s.subrange(1, s.len() - 1) == t);
        },
        Datum::Boolean(b) => {
            reveal_strlit("true");
            reveal_strlit("false");
            lemma_trimmed_is_itself(boolean_text(b));
            lemma_not_null(boolean_text(b));
        },
        Datum::Null => {
            reveal_strlit("NULL");
            assert("NULL"@[0] == 'N');
            lemma_trimmed_is_itself("NULL"@);
            assert(!all_digits("NULL"@));
            assert(integer_reading("NULL"@) is None);
        },
        Datum::Float(_) => {},
    }
}

proof fn lemma_not_null(s: Seq<char>)
    requires
        s.len() > 0,
        ascii_upper(s[0]) != 'N',
    ensures
        !same_but_for_case(s, "NULL"@),
{
    reveal_strlit("NULL");
    let a = s.map_values(|c: char| ascii_upper(c));
    let b = "NULL"@.map_values(|c: char| ascii_upper(c));
    assert(b[0] == 'N');
    assert(a[0] != b[0]);
}

proof fn lemma_decimal_shape(n: int)
    ensures
        decimal(n).len() > 0,
        decimal(n)[0] == '-' || is_digit(decimal(n)[0]),
        !is_space(decimal(n)[0]),
        !is_space(decimal(n).last()),
{
    let m: nat = if n < 0 { (-n) as nat } else { n as nat };
    lemma_digits_read_back(m);
    let ds = digits(m);
    assert(is_digit(ds[0]));
    assert(is_digit(ds.last()));
    assert(decimal(n).last() == ds.last());
}

} // verus!
