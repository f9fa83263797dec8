//! Values and rows.

use vstd::prelude::*;
use crate::float::{float_order, Order, F64};
use crate::text::same;

verus! {

/// A value in a row.
#[derive(Debug)]
pub enum Value {
    Integer(i64),
    Float(F64),
    String(String),
    Boolean(bool),
    Null,
}

/// A value as contracts speak of it.
pub enum Datum {
    Integer(i64),
    Float(u64),
    Text(Seq<char>),
    Boolean(bool),
    Null,
}

impl View for Value {
    type V = Datum;

    open spec fn view(&self) -> Datum {
        match *self {
            Value::Integer(i) => Datum::Integer(i),
            Value::Float(x) => Datum::Float(x.bits),
            Value::String(s) => Datum::Text(s@),
            Value::Boolean(b) => Datum::Boolean(b),
            Value::Null => Datum::Null,
        }
    }
}

impl Clone for Value {
    fn clone(&self) -> (r: Self)
        ensures
            r == *self,
    {
        match self {
            Value::Integer(i) => Value::Integer(*i),
            Value::Float(x) => Value::Float(*x),
            Value::String(s) => Value::String(s.clone()),
            Value::Boolean(b) => Value::Boolean(*b),
            Value::Null => Value::Null,
        }
    }
}

/// Equality of two values as `==` has it: floats by their number, so that the
/// two zeros are equal and what is not a number equals nothing.
pub open spec fn datum_eq(a: Datum, b: Datum) -> bool {
    match (a, b) {
        (Datum::Integer(x), Datum::Integer(y)) => x == y,
        (Datum::Float(x), Datum::Float(y)) => float_order(x, y) == Some(Order::Equal),
        (Datum::Text(x), Datum::Text(y)) => x == y,
        (Datum::Boolean(x), Datum::Boolean(y)) => x == y,
        (Datum::Null, Datum::Null) => true,
        _ => false,
    }
}

impl PartialEq for Value {
    fn eq(&self, other: &Self) -> (r: bool) {
        match (self, other) {
            (Value::Integer(x), Value::Integer(y)) => *x == *y,
            (Value::Float(x), Value::Float(y)) => match x.order(*y) {
                Some(Order::Equal) => true,
                _ => false,
            },
            (Value::String(x), Value::String(y)) => same(x.as_str(), y.as_str()),
            (Value::Boolean(x), Value::Boolean(y)) => *x == *y,
            (Value::Null, Value::Null) => true,
            _ => false,
        }
    }
}

impl vstd::std_specs::cmp::PartialEqSpecImpl for Value {
    open spec fn obeys_eq_spec() -> bool {
        true
    }

    open spec fn eq_spec(&self, other: &Self) -> bool {
        datum_eq(self@, other@)
    }
}

/// A row.
#[derive(Debug)]
pub struct Tuple {
    pub values: Vec<Value>,
}

/// The values of a list, each as its model.
pub open spec fn data(v: Seq<Value>) -> Seq<Datum> {
    v.map_values(|x: Value| x@)
}

impl View for Tuple {
    type V = Seq<Datum>;

    open spec fn view(&self) -> Seq<Datum> {
        data(self.values@)
    }
}

/// The rows of a list, each as its model.
pub open spec fn rows(v: Seq<Tuple>) -> Seq<Seq<Datum>> {
    v.map_values(|t: Tuple| t@)
}

/// Copies a list of values.
pub fn copy_values(v: &Vec<Value>) -> (r: Vec<Value>)
    ensures
        r@ == v@,
{
    let r = v.clone();
    assert(r@ == v@);
    r
}

impl Clone for Tuple {
    fn clone(&self) -> (r: Self)
        ensures
            r@ == self@,
            r.values@ == self.values@,
    {
        Tuple { values: copy_values(&self.values) }
    }
}

/// `a` followed by `b`, as one row.
pub fn concat_rows(a: &Tuple, b: &Tuple) -> (r: Tuple)
    ensures
        r@ == a@ + b@,
{
    let mut values = copy_values(&a.values);
    values.extend_from_slice(b.values.as_slice());
    assert(values@ == a.values@ + b.values@);
    assert(data(values@) == data(a.values@) + data(b.values@));
    Tuple { values }
}

} // verus!
