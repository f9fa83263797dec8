//! What the arithmetic of an assignment gives.

use vstd::prelude::*;
use crate::execution::catalog::{DataType, SchemaModel};
use crate::execution::operators::Datum;
use crate::execution::row_codec::assignment::{
    arithmetic, arithmetic_result, assigned_value, assignment_of, fits, Arithmetic, Assigned,
    Source,
};
use crate::execution::row_codec::literals::{literal_reading, shaped_reading};
use crate::execution::row_codec::tokens::tokens_of;
use crate::float::{is_equal, FloatModel, FloatOp};

verus! {

/// The sum, the difference and the product of two integers are those of the numbers.
pub proof fn integers_are_added_and_multiplied(x: i64, y: i64, fl: FloatModel)
    ensures
        ({
            let result = |op: Arithmetic|
                arithmetic_result(Datum::Integer(x), op, Datum::Integer(y), fl);
            let fit = |op: Arithmetic| fits(Datum::Integer(x), op, Datum::Integer(y));
            &&& fit(Arithmetic::Plus) <==> i64::MIN <= x + y <= i64::MAX
            &&& fit(Arithmetic::Minus) <==> i64::MIN <= x - y <= i64::MAX
            &&& fit(Arithmetic::Times) <==> i64::MIN <= x * y <= i64::MAX
            &&& fit(Arithmetic::Plus) ==> result(Arithmetic::Plus) == Some(
                Datum::Integer((x + y) as i64),
            )
            &&& fit(Arithmetic::Minus) ==> result(Arithmetic::Minus) == Some(
                Datum::Integer((x - y) as i64),
            )
            &&& fit(Arithmetic::Times) ==> result(Arithmetic::Times) == Some(
                Datum::Integer((x * y) as i64),
            )
        }),
{
}

/// The quotient of two integers is cut towards zero: what it leaves is smaller than the
/// divisor and has the sign of the dividend. There is none by zero.
pub proof fn a_quotient_is_cut_towards_zero(x: i64, y: i64, fl: FloatModel)
    requires
        fits(Datum::Integer(x), Arithmetic::Over, Datum::Integer(y)),
    ensures
        match arithmetic_result(Datum::Integer(x), Arithmetic::Over, Datum::Integer(y), fl) {
            Some(Datum::Integer(q)) => {
                let left = x - q * y;
                &&& y != 0
                &&& y > 0 ==> -y < left < y
                &&& y < 0 ==> y < left < -y
                &&& x >= 0 ==> left >= 0
                &&& x <= 0 ==> left <= 0
            },
            Some(_) => false,
            None => y == 0,
        },
{
    if y != 0 {
        let a: int = if x < 0 { -(x as int) } else { x as int };
        let b: int = if y < 0 { -(y as int) } else { y as int };
        let q = a / b;
        assert(a == b * q + a % b && 0 <= a % b < b) by (nonlinear_arith)
            requires
                b > 0,
                q == a / b,
        ;
        let whole = arithmetic_result(
            Datum::Integer(x),
            Arithmetic::Over,
            Datum::Integer(y),
            fl,
        )->Some_0->Integer_0;
        assert(whole == q || whole == -q);
        if x >= 0 && y > 0 {
            assert(q * y == b * q) by (nonlinear_arith)
                requires
                    y == b,
            ;
        } else if x >= 0 {
            assert((-q) * y == b * q) by (nonlinear_arith)
                requires
                    y == -b,
            ;
        } else if y > 0 {
            assert((-q) * y == -(b * q)) by (nonlinear_arith)
                requires
                    y == b,
            ;
        } else {
            assert(q * y == -(b * q)) by (nonlinear_arith)
                requires
                    y == -b,
            ;
        }
    }
}

/// Two floats give what the unit gives for them, the left operand first. There is no
/// quotient by zero.
pub proof fn floats_give_what_the_unit_gives(x: u64, y: u64, fl: FloatModel)
    ensures
        ({
            let result = |op: Arithmetic|
                arithmetic_result(Datum::Float(x), op, Datum::Float(y), fl);
            &&& result(Arithmetic::Plus) == Some(Datum::Float((fl.gives)(FloatOp::Plus, x, y)))
            &&& result(Arithmetic::Minus) == Some(Datum::Float((fl.gives)(FloatOp::Minus, x, y)))
            &&& result(Arithmetic::Times) == Some(Datum::Float((fl.gives)(FloatOp::Times, x, y)))
            &&& !is_equal(y, 0) ==> result(Arithmetic::Over) == Some(
                Datum::Float((fl.gives)(FloatOp::Over, x, y)),
            )
            &&& is_equal(y, 0) ==> result(Arithmetic::Over) is None
        }),
{
}

/// An integer beside a float counts as the float that the unit makes of it, and stays on
/// its side of the operator.
pub proof fn an_integer_beside_a_float_is_a_float(
    n: i64,
    x: u64,
    op: Arithmetic,
    fl: FloatModel,
)
    ensures
        ({
            let f = Datum::Float((fl.gives)(FloatOp::OfInteger, n as u64, 0));
            let d = Datum::Float(x);
            &&& arithmetic_result(d, op, Datum::Integer(n), fl) == arithmetic_result(d, op, f, fl)
            &&& arithmetic_result(Datum::Integer(n), op, d, fl) == arithmetic_result(f, op, d, fl)
        }),
{
}

/// Texts can be put one after the other, and nothing else can be done with them. There is
/// no result with a null or a truth value.
pub proof fn texts_are_only_put_together(
    x: Seq<char>,
    y: Seq<char>,
    a: Datum,
    op: Arithmetic,
    b: Datum,
    fl: FloatModel,
)
    ensures
        arithmetic_result(Datum::Text(x), Arithmetic::Plus, Datum::Text(y), fl) == Some(
            Datum::Text(x + y),
        ),
        op != Arithmetic::Plus ==> arithmetic_result(
            Datum::Text(x),
            op,
            Datum::Text(y),
            fl,
        ) is None,
        a is Null || b is Null || a is Boolean || b is Boolean || (a is Text) != (b is Text)
            ==> arithmetic_result(a, op, b, fl) is None,
{
}

/// An assignment of one column, one literal, or two of them joined by an operator takes
/// the row's values as they were, the left one first. What has no result becomes null.
pub proof fn an_assignment_reads_the_row(
    row: Seq<Datum>,
    i: int,
    j: int,
    d: Datum,
    op: Arithmetic,
    fl: FloatModel,
)
    requires
        0 <= i < row.len(),
        0 <= j < row.len(),
    ensures
        assigned_value(Assigned::Literal(d), row, fl) == d,
        assigned_value(Assigned::Column(i), row, fl) == row[i],
        ({
            let value = |l: Source, r: Source|
                assigned_value(Assigned::Arithmetic(l, op, r), row, fl);
            let or_null = |x: Option<Datum>|
                match x {
                    Some(v) => v,
                    None => Datum::Null,
                };
            &&& value(Source::Column(i), Source::Column(j)) == or_null(
                arithmetic_result(row[i], op, row[j], fl),
            )
            &&& value(Source::Column(i), Source::Literal(d)) == or_null(
                arithmetic_result(row[i], op, d, fl),
            )
            &&& value(Source::Literal(d), Source::Column(i)) == or_null(
                arithmetic_result(d, op, row[i], fl),
            )
        }),
{
}

/// Each operator is written as one sign.
pub proof fn signs_are_read_as_written(token: Seq<char>)
    ensures
        (arithmetic(token) == Some(Arithmetic::Plus)) <==> token == seq!['+'],
        (arithmetic(token) == Some(Arithmetic::Minus)) <==> token == seq!['-'],
        (arithmetic(token) == Some(Arithmetic::Times)) <==> token == seq!['*'],
        (arithmetic(token) == Some(Arithmetic::Over)) <==> token == seq!['/'],
{
    reveal_strlit("+");
    reveal_strlit("-");
    reveal_strlit("*");
    reveal_strlit("/");
    assert("+"@ =~= seq!['+']);
    assert("-"@ =~= seq!['-']);
    assert("*"@ =~= seq!['*']);
    assert("/"@ =~= seq!['/']);
    assert(seq!['+'][0] == '+' && seq!['-'][0] == '-' && seq!['*'][0] == '*' && seq!['/'][0]
        == '/');
}

/// An expression of three words, a column of integers, a sign and an integer, assigns the
/// row's number and that integer put together by the sign.
pub proof fn an_expression_computes_with_the_row(
    text: Seq<char>,
    schema: SchemaModel,
    target: DataType,
    column: int,
    row: Seq<Datum>,
    x: i64,
    y: i64,
    fl: FloatModel,
)
    requires
        tokens_of(text).len() == 3,
        schema.position(tokens_of(text)[0]) == Some(column),
        schema.position(tokens_of(text)[2]) is None,
        shaped_reading(tokens_of(text)[2], fl) == Some(Datum::Integer(y)),
        0 <= column < row.len(),
        row[column] == Datum::Integer(x),
    ensures
        ({
            let sign = tokens_of(text)[1];
            let value = |a: Option<Assigned>|
                match a {
                    Some(k) => Some(assigned_value(k, row, fl)),
                    None => None,
                };
            let v = value(assignment_of(text, schema, target, fl));
            &&& sign == seq!['+'] && i64::MIN <= x + y <= i64::MAX ==> v == Some(
                Datum::Integer((x + y) as i64),
            )
            &&& sign == seq!['-'] && i64::MIN <= x - y <= i64::MAX ==> v == Some(
                Datum::Integer((x - y) as i64),
            )
            &&& sign == seq!['*'] && i64::MIN <= x * y <= i64::MAX ==> v == Some(
                Datum::Integer((x * y) as i64),
            )
            &&& sign == seq!['/'] && y == 0 ==> v == Some(Datum::Null)
        }),
{
    signs_are_read_as_written(tokens_of(text)[1]);
}

/// An expression of one word is the column of that name, or else the literal that the word
/// reads as in the column that is assigned to.
pub proof fn one_word_is_a_column_or_a_literal(
    text: Seq<char>,
    schema: SchemaModel,
    target: DataType,
    row: Seq<Datum>,
    fl: FloatModel,
)
    requires
        tokens_of(text).len() == 1,
    ensures
        match (schema.position(tokens_of(text)[0]), literal_reading(tokens_of(text)[0], target, fl)) {
            (Some(i), _) => 0 <= i < row.len() ==> (assignment_of(text, schema, target, fl)
                matches Some(a) && assigned_value(a, row, fl) == row[i]),
            (None, Some(d)) => assignment_of(text, schema, target, fl) matches Some(a)
                && assigned_value(a, row, fl) == d,
            (None, None) => assignment_of(text, schema, target, fl) is None,
        },
{
}

} // verus!
