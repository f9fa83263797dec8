//! The right-hand side of an assignment in `UPDATE ... SET`.

use vstd::prelude::*;
use crate::execution::catalog::{DataType, SchemaModel, TableSchema};
use crate::execution::operators::{Datum, Tuple, Value};
use crate::execution::row_codec::literals::{
    literal_reading, optional_datum, parse_literal_checked, parse_literal_value, shaped_reading,
};
use crate::execution::row_codec::predicate::{value_at, widen, widened};
use crate::execution::row_codec::tokens::{tokenize_expr, tokens_of};
use crate::float::{float_order, FloatModel, FloatOp, Floats, Order, F64};
use crate::text::{join2, same, texts};

verus! {

/// An arithmetic operator.
#[derive(Clone, Copy, Debug, PartialEq, Eq, Structural)]
pub enum Arithmetic {
    Plus,
    Minus,
    Times,
    Over,
}

/// The operator that a token names.
pub open spec fn arithmetic(token: Seq<char>) -> Option<Arithmetic> {
    if token == "+"@ {
        Some(Arithmetic::Plus)
    } else if token == "-"@ {
        Some(Arithmetic::Minus)
    } else if token == "*"@ {
        Some(Arithmetic::Times)
    } else if token == "/"@ {
        Some(Arithmetic::Over)
    } else {
        None
    }
}

/// The operator that a token names.
pub fn arith_op(token: &str) -> (r: Option<Arithmetic>)
    ensures
        r == arithmetic(token@),
{
    if same(token, "+") {
        Some(Arithmetic::Plus)
    } else if same(token, "-") {
        Some(Arithmetic::Minus)
    } else if same(token, "*") {
        Some(Arithmetic::Times)
    } else if same(token, "/") {
        Some(Arithmetic::Over)
    } else {
        None
    }
}

/// The quotient of two integers, rounded towards zero.
pub open spec fn truncated_quotient(a: int, b: int) -> int {
    if (a >= 0) == (b >= 0) {
        magnitude_of(a) / magnitude_of(b)
    } else {
        -(magnitude_of(a) / magnitude_of(b))
    }
}

pub open spec fn magnitude_of(a: int) -> int {
    if a < 0 { -a } else { a }
}

/// The exact result of an operation on two integers; `None` for a division by
/// zero.
pub open spec fn integer_result(a: i64, op: Arithmetic, b: i64) -> Option<int> {
    match op {
        Arithmetic::Plus => Some(a + b),
        Arithmetic::Minus => Some(a - b),
        Arithmetic::Times => Some(a * b),
        Arithmetic::Over => if b != 0 { Some(truncated_quotient(a as int, b as int)) } else { None },
    }
}

/// The operation on floats that an operator stands for.
pub open spec fn float_operation(op: Arithmetic) -> FloatOp {
    match op {
        Arithmetic::Plus => FloatOp::Plus,
        Arithmetic::Minus => FloatOp::Minus,
        Arithmetic::Times => FloatOp::Times,
        Arithmetic::Over => FloatOp::Over,
    }
}

/// The result of an operation on two floats; `None` for a division by zero.
pub open spec fn float_result(a: u64, op: Arithmetic, b: u64, fl: FloatModel) -> Option<u64> {
    if op == Arithmetic::Over && float_order(b, 0) == Some(Order::Equal) {
        None
    } else {
        Some((fl.gives)(float_operation(op), a, b))
    }
}

/// Whether the result of an operation on two values can be held: that of two
/// integers must be a 64-bit integer.
pub open spec fn fits(a: Datum, op: Arithmetic, b: Datum) -> bool {
    match (a, b) {
        (Datum::Integer(x), Datum::Integer(y)) => match integer_result(x, op, y) {
            Some(n) => i64::MIN <= n <= i64::MAX,
            None => true,
        },
        _ => true,
    }
}

/// The result of an operation on two values; `None` where there is none: a
/// division by zero, or operands that the operator does not take. Integers
/// stay integers, an integer meets a float as the nearest float, and two texts
/// can be joined by `+`.
pub open spec fn arithmetic_result(a: Datum, op: Arithmetic, b: Datum, fl: FloatModel) -> Option<
    Datum,
> {
    match (a, b) {
        (Datum::Integer(x), Datum::Integer(y)) => match integer_result(x, op, y) {
            Some(n) => Some(Datum::Integer(n as i64)),
            None => None,
        },
        (Datum::Text(x), Datum::Text(y)) => if op == Arithmetic::Plus {
            Some(Datum::Text(x + y))
        } else {
            None
        },
        (Datum::Float(x), Datum::Float(y)) => float_datum(float_result(x, op, y, fl)),
        (Datum::Integer(x), Datum::Float(y)) => float_datum(
            float_result(widened(x, fl), op, y, fl),
        ),
        (Datum::Float(x), Datum::Integer(y)) => float_datum(
            float_result(x, op, widened(y, fl), fl),
        ),
        _ => None,
    }
}

pub open spec fn float_datum(x: Option<u64>) -> Option<Datum> {
    match x {
        Some(bits) => Some(Datum::Float(bits)),
        None => None,
    }
}

/// No division overflows but that of the least integer by minus one.
proof fn lemma_quotient_fits(a: i64, b: i64)
    requires
        b != 0,
        !(a == i64::MIN && b == -1),
    ensures
        i64::MIN <= truncated_quotient(a as int, b as int) <= i64::MAX,
{
    let x = magnitude_of(a as int);
    let y = magnitude_of(b as int);
    assert(0 <= x / y <= x) by (nonlinear_arith)
        requires
            x >= 0,
            y >= 1,
    ;
    if a == i64::MIN && b == 1 {
        assert(x / 1 == x);
    }
    if y >= 2 {
        assert(x / y <= x / 2) by (nonlinear_arith)
            requires
                x >= 0,
                y >= 2,
        ;
    }
}

fn integer_arith(a: i64, op: Arithmetic, b: i64) -> (r: Option<i64>)
    requires
        fits(Datum::Integer(a), op, Datum::Integer(b)),
    ensures
        match integer_result(a, op, b) {
            Some(n) => r == Some(n as i64),
            None => r is None,
        },
{
    match op {
        Arithmetic::Plus => Some(a + b),
        Arithmetic::Minus => Some(a - b),
        Arithmetic::Times => Some(a * b),
        Arithmetic::Over => {
            if b == 0 {
                None
            } else {
                assert(magnitude_of(a as int) / 1 == magnitude_of(a as int));
                Some(divide(a, b))
            }
        },
    }
}

fn integers_fit(a: i64, op: Arithmetic, b: i64) -> (r: bool)
    ensures
        r == fits(Datum::Integer(a), op, Datum::Integer(b)),
{
    match op {
        Arithmetic::Plus => a.checked_add(b).is_some(),
        Arithmetic::Minus => a.checked_sub(b).is_some(),
        Arithmetic::Times => a.checked_mul(b).is_some(),
        Arithmetic::Over => {
            proof {
                assert(magnitude_of(a as int) / 1 == magnitude_of(a as int));
                if b != 0 && !(a == i64::MIN && b == -1) {
                    lemma_quotient_fits(a, b);
                }
            }
            !(a == i64::MIN && b == -1)
        },
    }
}

fn divide(a: i64, b: i64) -> (r: i64)
    requires
        b != 0,
        !(a == i64::MIN && b == -1),
    ensures
        r == truncated_quotient(a as int, b as int),
{
    proof {
        lemma_quotient_fits(a, b);
    }
    let x: u64 = if a < 0 { (-(a as i128)) as u64 } else { a as u64 };
    let y: u64 = if b < 0 { (-(b as i128)) as u64 } else { b as u64 };
    let q: u64 = x / y;
    if (a >= 0) == (b >= 0) {
        q as i64
    } else {
        (-(q as i128)) as i64
    }
}

fn float_arith<F: Floats>(a: F64, op: Arithmetic, b: F64, floats: &F) -> (r: Option<Value>)
    requires
        floats.sound(),
    ensures
        optional_datum(r) == float_datum(float_result(a.bits, op, b.bits, floats.model())),
{
    let operation = match op {
        Arithmetic::Plus => FloatOp::Plus,
        Arithmetic::Minus => FloatOp::Minus,
        Arithmetic::Times => FloatOp::Times,
        Arithmetic::Over => FloatOp::Over,
    };
    if op == Arithmetic::Over {
        match b.order(F64 { bits: 0 }) {
            Some(Order::Equal) => {
                return None;
            },
            _ => {},
        }
    }
    Some(Value::Float(F64 { bits: floats.apply(operation, a.bits, b.bits) }))
}

/// The result of an operation on two values.
pub fn arith<F: Floats>(left: &Value, op: Arithmetic, right: &Value, floats: &F) -> (r: Option<
    Value,
>)
    requires
        floats.sound(),
        fits(left@, op, right@),
    ensures
        optional_datum(r) == arithmetic_result(left@, op, right@, floats.model()),
{
    match (left, right) {
        (Value::Integer(a), Value::Integer(b)) => match integer_arith(*a, op, *b) {
            Some(n) => Some(Value::Integer(n)),
            None => None,
        },
        (Value::String(a), Value::String(b)) => if op == Arithmetic::Plus {
            Some(Value::String(join2(a.as_str(), b.as_str())))
        } else {
            None
        },
        (Value::Float(a), Value::Float(b)) => float_arith(*a, op, *b, floats),
        (Value::Integer(a), Value::Float(b)) => float_arith(widen(*a, floats), op, *b, floats),
        (Value::Float(a), Value::Integer(b)) => float_arith(*a, op, widen(*b, floats), floats),
        _ => None,
    }
}

/// An operand: a column of the row, or a literal.
#[derive(Debug)]
pub enum ValueOperand {
    Column(usize),
    Literal(Value),
}

/// What an assignment computes.
#[derive(Debug)]
pub enum AssignmentKind {
    Literal(Value),
    ColumnRef(usize),
    Arithmetic { left: ValueOperand, op: Arithmetic, right: ValueOperand },
}

/// An operand as contracts speak of it.
pub enum Source {
    Column(int),
    Literal(Datum),
}

/// An assignment as contracts speak of it.
pub enum Assigned {
    Literal(Datum),
    Column(int),
    Arithmetic(Source, Arithmetic, Source),
}

impl View for ValueOperand {
    type V = Source;

    open spec fn view(&self) -> Source {
        match *self {
            ValueOperand::Column(i) => Source::Column(i as int),
            ValueOperand::Literal(v) => Source::Literal(v@),
        }
    }
}

impl View for AssignmentKind {
    type V = Assigned;

    open spec fn view(&self) -> Assigned {
        match *self {
            AssignmentKind::Literal(v) => Assigned::Literal(v@),
            AssignmentKind::ColumnRef(i) => Assigned::Column(i as int),
            AssignmentKind::Arithmetic { left, op, right } => Assigned::Arithmetic(
                left@,
                op,
                right@,
            ),
        }
    }
}

/// The operand that a token is: a column, or a literal by its own shape.
pub open spec fn operand_of(token: Seq<char>, schema: SchemaModel, fl: FloatModel) -> Option<
    Source,
> {
    match schema.position(token) {
        Some(i) => Some(Source::Column(i)),
        None => match shaped_reading(token, fl) {
            Some(d) => Some(Source::Literal(d)),
            None => None,
        },
    }
}

/// The assignment that a text is: a column, a literal of the target's type, or
/// two operands with an operator between them. Any other text is none.
pub open spec fn assignment_of(
    text: Seq<char>,
    schema: SchemaModel,
    target: DataType,
    fl: FloatModel,
) -> Option<Assigned> {
    let tokens = tokens_of(text);
    if tokens.len() == 1 {
        match schema.position(tokens[0]) {
            Some(i) => Some(Assigned::Column(i)),
            None => match literal_reading(tokens[0], target, fl) {
                Some(d) => Some(Assigned::Literal(d)),
                None => None,
            },
        }
    } else if tokens.len() == 3 {
        match (
            operand_of(tokens[0], schema, fl),
            arithmetic(tokens[1]),
            operand_of(tokens[2], schema, fl),
        ) {
            (Some(l), Some(op), Some(r)) => Some(Assigned::Arithmetic(l, op, r)),
            _ => None,
        }
    } else {
        None
    }
}

/// The value of an operand in a row.
pub open spec fn source_value(s: Source, row: Seq<Datum>) -> Datum {
    match s {
        Source::Column(i) => match value_at(row, i) {
            Some(d) => d,
            None => Datum::Null,
        },
        Source::Literal(d) => d,
    }
}

/// The value that an assignment gives for a row; null where its arithmetic
/// has no result.
pub open spec fn assigned_value(a: Assigned, row: Seq<Datum>, fl: FloatModel) -> Datum {
    match a {
        Assigned::Literal(d) => d,
        Assigned::Column(i) => source_value(Source::Column(i), row),
        Assigned::Arithmetic(l, op, r) => match arithmetic_result(
            source_value(l, row),
            op,
            source_value(r, row),
            fl,
        ) {
            Some(d) => d,
            None => Datum::Null,
        },
    }
}

/// Whether the arithmetic of an assignment can be held for a row.
pub open spec fn assignment_fits(a: Assigned, row: Seq<Datum>) -> bool {
    match a {
        Assigned::Arithmetic(l, op, r) => fits(source_value(l, row), op, source_value(r, row)),
        _ => true,
    }
}

fn resolve_operand<F: Floats>(token: &str, schema: &TableSchema, floats: &F) -> (r: Option<
    ValueOperand,
>)
    requires
        floats.sound(),
    ensures
        match r {
            Some(o) => operand_of(token@, schema@, floats.model()) == Some(o@),
            None => operand_of(token@, schema@, floats.model()) is None,
        },
{
    match schema.position(token) {
        Some(i) => Some(ValueOperand::Column(i)),
        None => match parse_literal_value(token, floats) {
            Some(v) => Some(ValueOperand::Literal(v)),
            None => None,
        },
    }
}

fn column_value(row: &Tuple, i: usize) -> (r: Value)
    ensures
        r@ == source_value(Source::Column(i as int), row@),
{
    if i < row.values.len() {
        row.values[i].clone()
    } else {
        Value::Null
    }
}

/// The right-hand side of an assignment, read once, to be evaluated for many
/// rows.
#[derive(Debug)]
pub struct CompiledAssignment {
    kind: AssignmentKind,
}

impl CompiledAssignment {
    /// The assignment as contracts speak of it.
    pub closed spec fn model(&self) -> Assigned {
        self.kind@
    }

    /// Reads the right-hand side of an assignment to a column of type
    /// `target_type`; `None` where the text is not one.
    pub fn compile<F: Floats>(
        expr: &str,
        schema: &TableSchema,
        target_type: DataType,
        floats: &F,
    ) -> (r: Option<CompiledAssignment>)
        requires
            floats.sound(),
        ensures
            match r {
                Some(a) => assignment_of(expr@, schema@, target_type, floats.model()) == Some(
                    a.model(),
                ),
                None => assignment_of(expr@, schema@, target_type, floats.model()) is None,
            },
    {
        let tokens = tokenize_expr(expr);
        assert(texts(tokens@).len() == tokens@.len());
        if tokens.len() == 1 {
            return match schema.position(tokens[0].as_str()) {
                Some(i) => Some(CompiledAssignment { kind: AssignmentKind::ColumnRef(i) }),
                None => match parse_literal_checked(tokens[0].as_str(), target_type, floats) {
                    Some(v) => Some(CompiledAssignment { kind: AssignmentKind::Literal(v) }),
                    None => None,
                },
            };
        }
        if tokens.len() != 3 {
            return None;
        }
        match (
            resolve_operand(tokens[0].as_str(), schema, floats),
            arith_op(tokens[1].as_str()),
            resolve_operand(tokens[2].as_str(), schema, floats),
        ) {
            (Some(left), Some(op), Some(right)) => Some(
                CompiledAssignment { kind: AssignmentKind::Arithmetic { left, op, right } },
            ),
            _ => None,
        }
    }

    fn operand_value(operand: &ValueOperand, tuple: &Tuple) -> (r: Value)
        ensures
            r@ == source_value(operand@, tuple@),
    {
        match operand {
            ValueOperand::Column(i) => column_value(tuple, *i),
            ValueOperand::Literal(v) => v.clone(),
        }
    }

    /// Whether the arithmetic of the assignment can be held for a row.
    pub fn fits(&self, tuple: &Tuple) -> (r: bool)
        ensures
            r == assignment_fits(self.model(), tuple@),
    {
        match &self.kind {
            AssignmentKind::Arithmetic { left, op, right } => {
                match (Self::operand_value(left, tuple), Self::operand_value(right, tuple)) {
                    (Value::Integer(a), Value::Integer(b)) => integers_fit(a, *op, b),
                    _ => true,
                }
            },
            _ => true,
        }
    }

    /// The value that the assignment gives for a row.
    pub fn eval<F: Floats>(&self, tuple: &Tuple, floats: &F) -> (r: Value)
        requires
            floats.sound(),
            assignment_fits(self.model(), tuple@),
        ensures
            r@ == assigned_value(self.model(), tuple@, floats.model()),
    {
        match &self.kind {
            AssignmentKind::Literal(v) => v.clone(),
            AssignmentKind::ColumnRef(i) => column_value(tuple, *i),
            AssignmentKind::Arithmetic { left, op, right } => {
                let a = Self::operand_value(left, tuple);
                let b = Self::operand_value(right, tuple);
                match arith(&a, *op, &b, floats) {
                    Some(v) => v,
                    None => Value::Null,
                }
            },
        }
    }
}

} // verus!
