//! What the comparison of two values means, in a predicate and in sorting.

use vstd::prelude::*;
use crate::execution::catalog::SchemaModel;
use crate::execution::operators::{datum_eq, Datum};
use crate::execution::row_codec::literals::value_reading;
use crate::execution::row_codec::ordering::{row_order, sort_order, sorted_rows, Place};
use crate::execution::row_codec::predicate::{
    compared, comparison, evaluated, keeps, Comparison, Expr, Operand, Tri,
};
use crate::execution::row_codec::predicate_laws::judged;
use crate::execution::row_codec::sorting_laws::neighbours_are_in_order;
use crate::execution::row_codec::tokens::tokens_of;
use crate::float::{
    floats_are_ordered, is_equal, is_less, not_a_number, FloatModel, FloatOp, Order,
};
use crate::text::{text_less, text_order_is_total};

verus! {

/// The six comparisons of two values come out as these six conditions.
pub open spec fn come_out(
    a: Datum,
    b: Datum,
    fl: FloatModel,
    less: bool,
    equal: bool,
    greater: bool,
) -> bool {
    let is_true = |op: Comparison| compared(a, op, b, fl) == Some(Tri::True);
    let is_false = |op: Comparison| compared(a, op, b, fl) == Some(Tri::False);
    &&& if less { is_true(Comparison::Less) } else { is_false(Comparison::Less) }
    &&& if equal { is_true(Comparison::Equal) } else { is_false(Comparison::Equal) }
    &&& if greater { is_true(Comparison::Greater) } else { is_false(Comparison::Greater) }
    &&& if less || equal { is_true(Comparison::AtMost) } else { is_false(Comparison::AtMost) }
    &&& if greater || equal { is_true(Comparison::AtLeast) } else { is_false(Comparison::AtLeast) }
    &&& if less || greater { is_true(Comparison::NotEqual) } else { is_false(Comparison::NotEqual) }
}

/// Two integers compare as the numbers that they are: `!=` is true of different numbers,
/// `<` of a smaller and a greater one, and so on.
pub proof fn integers_compare_as_numbers(x: i64, y: i64, fl: FloatModel)
    ensures
        come_out(Datum::Integer(x), Datum::Integer(y), fl, x < y, x == y, x > y),
{
}

/// Two texts compare by the order of texts, and are equal where they have the same
/// characters.
pub proof fn texts_compare_by_their_order(x: Seq<char>, y: Seq<char>, fl: FloatModel)
    ensures
        come_out(Datum::Text(x), Datum::Text(y), fl, text_less(x, y), x == y, text_less(y, x)),
{
    text_order_is_total(x, y);
}

/// False comes before true.
pub proof fn false_comes_before_true(x: bool, y: bool, fl: FloatModel)
    ensures
        come_out(Datum::Boolean(x), Datum::Boolean(y), fl, !x && y, x == y, x && !y),
{
}

/// Two floats compare as the numbers that they are. What is not a number cannot be
/// compared.
pub proof fn floats_compare_as_numbers(x: u64, y: u64, op: Comparison, fl: FloatModel)
    ensures
        !not_a_number(x) && !not_a_number(y) ==> come_out(
            Datum::Float(x),
            Datum::Float(y),
            fl,
            is_less(x, y),
            is_equal(x, y),
            is_less(y, x),
        ),
        not_a_number(x) || not_a_number(y) ==> compared(
            Datum::Float(x),
            op,
            Datum::Float(y),
            fl,
        ) is None,
{
    floats_are_ordered(x, y);
}

/// An integer compares with a float as the float that the unit makes of it, on either side.
pub proof fn integers_compare_with_floats(n: i64, x: u64, op: Comparison, fl: FloatModel)
    ensures
        compared(Datum::Integer(n), op, Datum::Float(x), fl) == compared(
            Datum::Float((fl.gives)(FloatOp::OfInteger, n as u64, 0)),
            op,
            Datum::Float(x),
            fl,
        ),
        compared(Datum::Float(x), op, Datum::Integer(n), fl) == compared(
            Datum::Float(x),
            op,
            Datum::Float((fl.gives)(FloatOp::OfInteger, n as u64, 0)),
            fl,
        ),
{
}

/// A value is a number.
pub open spec fn is_number(d: Datum) -> bool {
    d is Integer || d is Float
}

/// With null every comparison is unknown. Two values of which neither is null cannot be
/// compared where they are of different kinds, integers and floats being one kind.
pub proof fn kinds_do_not_compare(a: Datum, op: Comparison, b: Datum, fl: FloatModel)
    ensures
        a is Null || b is Null ==> compared(a, op, b, fl) == Some(Tri::Unknown),
        !(a is Null) && !(b is Null) && (is_number(a) != is_number(b) || (a is Text) != (b is Text)
            || (a is Boolean) != (b is Boolean)) ==> compared(a, op, b, fl) is None,
{
}

/// `!=` is true exactly where `=` is false, `>=` where `<` is, and `<=` where `>` is; and a
/// comparison read from right to left is the opposite one.
pub proof fn comparisons_are_opposites(a: Datum, b: Datum, fl: FloatModel)
    ensures
        ({
            let says = |x: Datum, op: Comparison, y: Datum| compared(x, op, y, fl);
            &&& (says(a, Comparison::NotEqual, b) == Some(Tri::True)) <==> (says(
                a,
                Comparison::Equal,
                b,
            ) == Some(Tri::False))
            &&& (says(a, Comparison::AtLeast, b) == Some(Tri::True)) <==> (says(
                a,
                Comparison::Less,
                b,
            ) == Some(Tri::False))
            &&& (says(a, Comparison::AtMost, b) == Some(Tri::True)) <==> (says(
                a,
                Comparison::Greater,
                b,
            ) == Some(Tri::False))
            &&& says(a, Comparison::Less, b) == says(b, Comparison::Greater, a)
            &&& says(a, Comparison::AtMost, b) == says(b, Comparison::AtLeast, a)
            &&& says(a, Comparison::Equal, b) == says(b, Comparison::Equal, a)
            &&& says(a, Comparison::NotEqual, b) == says(b, Comparison::NotEqual, a)
        }),
{
    match (a, b) {
        (Datum::Text(x), Datum::Text(y)) => {
            text_order_is_total(x, y);
        },
        _ => {},
    }
}

/// `AND` is true of two truths and false with one falsehood, `OR` is true with one truth and
/// false of two falsehoods; else neither is known.
pub proof fn truth_values_combine(a: Tri, b: Tri)
    ensures
        (a.conjunction(b) == Tri::True) <==> a == Tri::True && b == Tri::True,
        (a.conjunction(b) == Tri::False) <==> a == Tri::False || b == Tri::False,
        (a.disjunction(b) == Tri::True) <==> a == Tri::True || b == Tri::True,
        (a.disjunction(b) == Tri::False) <==> a == Tri::False && b == Tri::False,
{
}

/// A comparison of a row reads the row's value in its column, and compares it, on the left,
/// with the literal or with the row's value in the other column. A row is kept where that is
/// true, of two predicates joined by `AND` where both are, by `OR` where either is.
pub proof fn a_row_is_kept_where_the_predicate_is_true(
    e: Expr,
    f: Expr,
    left: int,
    op: Comparison,
    d: Datum,
    right: int,
    row: Seq<Datum>,
    fl: FloatModel,
)
    requires
        0 <= left < row.len(),
        0 <= right < row.len(),
        evaluated(e, row, fl) is Some,
        evaluated(f, row, fl) is Some,
    ensures
        (keeps(Expr::Comparison(left, op, Operand::Literal(d)), row, fl) == Some(true)) <==> (
        compared(row[left], op, d, fl) == Some(Tri::True)),
        (keeps(Expr::Comparison(left, op, Operand::Column(right)), row, fl) == Some(true)) <==> (
        compared(row[left], op, row[right], fl) == Some(Tri::True)),
        (keeps(Expr::And(Box::new(e), Box::new(f)), row, fl) == Some(true)) <==> keeps(e, row, fl)
            == Some(true) && keeps(f, row, fl) == Some(true),
        (keeps(Expr::Or(Box::new(e), Box::new(f)), row, fl) == Some(true)) <==> keeps(e, row, fl)
            == Some(true) || keeps(f, row, fl) == Some(true),
{
}

/// Each operator is written in one way, but for the two of `!=`.
pub proof fn operators_are_read_as_written(token: Seq<char>)
    ensures
        (comparison(token) == Some(Comparison::Equal)) <==> token == seq!['='],
        (comparison(token) == Some(Comparison::NotEqual)) <==> token == seq!['!', '='] || token
            == seq!['<', '>'],
        (comparison(token) == Some(Comparison::Less)) <==> token == seq!['<'],
        (comparison(token) == Some(Comparison::AtMost)) <==> token == seq!['<', '='],
        (comparison(token) == Some(Comparison::Greater)) <==> token == seq!['>'],
        (comparison(token) == Some(Comparison::AtLeast)) <==> token == seq!['>', '='],
{
    reveal_strlit("=");
    reveal_strlit("!=");
    reveal_strlit("<>");
    reveal_strlit("<");
    reveal_strlit("<=");
    reveal_strlit(">");
    reveal_strlit(">=");
    assert("="@ =~= seq!['=']);
    assert("!="@ =~= seq!['!', '=']);
    assert("<>"@ =~= seq!['<', '>']);
    assert("<"@ =~= seq!['<']);
    assert("<="@ =~= seq!['<', '=']);
    assert(">"@ =~= seq!['>']);
    assert(">="@ =~= seq!['>', '=']);
    assert(seq!['='][0] == '=' && seq!['<'][0] == '<' && seq!['>'][0] == '>');
    assert(seq!['!', '='][0] == '!' && seq!['<', '>'][1] == '>' && seq!['<', '='][1] == '=');
    assert(seq!['>', '='][0] == '>' && seq!['<', '='][0] == '<' && seq!['<', '>'][0] == '<');
}

/// A predicate of three words, a column of integers, an operator and an integer, keeps the
/// rows whose number stands to that integer as the operator says.
pub proof fn a_predicate_keeps_the_numbers_it_names(
    text: Seq<char>,
    schema: SchemaModel,
    column: int,
    row: Seq<Datum>,
    x: i64,
    y: i64,
    fl: FloatModel,
)
    requires
        tokens_of(text).len() == 3,
        tokens_of(text)[0] != "("@,
        schema.position(tokens_of(text)[0]) == Some(column),
        schema.position(tokens_of(text)[2]) is None,
        0 <= column < row.len(),
        row[column] == Datum::Integer(x),
        value_reading(tokens_of(text)[2], schema.columns[column].data_type, fl) == Datum::Integer(y),
    ensures
        ({
            let op = tokens_of(text)[1];
            let kept = judged(text, schema, row, fl);
            &&& op == seq!['='] ==> kept == Some(x == y)
            &&& op == seq!['!', '='] || op == seq!['<', '>'] ==> kept == Some(x != y)
            &&& op == seq!['<'] ==> kept == Some(x < y)
            &&& op == seq!['<', '='] ==> kept == Some(x <= y)
            &&& op == seq!['>'] ==> kept == Some(x > y)
            &&& op == seq!['>', '='] ==> kept == Some(x >= y)
        }),
{
    let t = tokens_of(text);
    operators_are_read_as_written(t[1]);
    reveal_with_fuel(crate::execution::row_codec::predicate::read_or, 2);
    reveal_with_fuel(crate::execution::row_codec::predicate::read_and, 2);
    reveal_with_fuel(crate::execution::row_codec::predicate::read_atom, 2);
    reveal_with_fuel(crate::execution::row_codec::predicate::read_or_rest, 2);
    reveal_with_fuel(crate::execution::row_codec::predicate::read_and_rest, 2);
}

/// Two values are one where they are of one kind and the same: integers and floats as
/// numbers, texts by their characters. Null is null.
pub proof fn equal_values_are_the_same(a: Datum, b: Datum)
    ensures
        datum_eq(a, b) <==> match (a, b) {
            (Datum::Float(x), Datum::Float(y)) => is_equal(x, y),
            _ => a == b,
        },
{
}

// ---- sorting --------------------------------------------------------------------

/// In sorting, integers stand by their numbers, texts by the order of texts, false before
/// true, and null before everything else.
pub proof fn values_are_sorted_by_their_order(a: Datum, b: Datum, fl: FloatModel)
    ensures
        match (a, b) {
            (Datum::Integer(x), Datum::Integer(y)) => {
                &&& (sort_order(a, b, fl) == Order::Less) <==> x < y
                &&& (sort_order(a, b, fl) == Order::Equal) <==> x == y
            },
            (Datum::Text(x), Datum::Text(y)) => {
                &&& (sort_order(a, b, fl) == Order::Less) <==> text_less(x, y)
                &&& (sort_order(a, b, fl) == Order::Equal) <==> x == y
            },
            (Datum::Boolean(x), Datum::Boolean(y)) => {
                &&& (sort_order(a, b, fl) == Order::Less) <==> !x && y
                &&& (sort_order(a, b, fl) == Order::Equal) <==> x == y
            },
            (Datum::Float(x), Datum::Float(y)) => {
                &&& (sort_order(a, b, fl) == Order::Less) <==> is_less(x, y)
                &&& (sort_order(a, b, fl) == Order::Greater) <==> is_less(y, x)
            },
            (Datum::Integer(x), Datum::Float(y)) => {
                let f = (fl.gives)(FloatOp::OfInteger, x as u64, 0);
                &&& (sort_order(a, b, fl) == Order::Less) <==> is_less(f, y)
                &&& (sort_order(a, b, fl) == Order::Greater) <==> is_less(y, f)
            },
            (Datum::Float(x), Datum::Integer(y)) => {
                let f = (fl.gives)(FloatOp::OfInteger, y as u64, 0);
                &&& (sort_order(a, b, fl) == Order::Less) <==> is_less(x, f)
                &&& (sort_order(a, b, fl) == Order::Greater) <==> is_less(f, x)
            },
            (Datum::Null, Datum::Null) => sort_order(a, b, fl) == Order::Equal,
            (Datum::Null, _) => sort_order(a, b, fl) == Order::Less,
            (_, Datum::Null) => sort_order(a, b, fl) == Order::Greater,
            _ => sort_order(a, b, fl) == Order::Equal,
        },
{
    match (a, b) {
        (Datum::Text(x), Datum::Text(y)) => {
            text_order_is_total(x, y);
        },
        (Datum::Float(x), Datum::Float(y)) => {
            floats_are_ordered(x, y);
        },
        (Datum::Integer(x), Datum::Float(y)) => {
            floats_are_ordered((fl.gives)(FloatOp::OfInteger, x as u64, 0), y);
        },
        (Datum::Float(x), Datum::Integer(y)) => {
            floats_are_ordered(x, (fl.gives)(FloatOp::OfInteger, y as u64, 0));
        },
        _ => {},
    }
}

/// Two rows are ordered by the first sort key in which they differ, in the sense of that
/// key or, where it descends, in the opposite sense.
pub proof fn the_first_difference_orders_rows(
    a: Seq<Datum>,
    b: Seq<Datum>,
    keys: Seq<Place>,
    i: int,
    k: int,
    fl: FloatModel,
)
    requires
        0 <= i <= k <= keys.len(),
        forall|m: int|
            i <= m < k ==> sort_order(a[(#[trigger] keys[m]).index], b[keys[m].index], fl)
                == Order::Equal,
        k < keys.len() ==> sort_order(a[keys[k].index], b[keys[k].index], fl) != Order::Equal,
    ensures
        ({
            let o = row_order(a, b, keys, i, fl);
            if k == keys.len() {
                o == Order::Equal
            } else if keys[k].ascending {
                o == sort_order(a[keys[k].index], b[keys[k].index], fl)
            } else {
                &&& (o == Order::Less) <==> (sort_order(
                    a[keys[k].index],
                    b[keys[k].index],
                    fl,
                ) == Order::Greater)
                &&& o != Order::Equal
            }
        }),
    decreases k - i,
{
    if i < k {
        assert(sort_order(a[keys[i].index], b[keys[i].index], fl) == Order::Equal);
        the_first_difference_orders_rows(a, b, keys, i + 1, k, fl);
    }
}

/// `first` may stand before `second` in a column that is sorted, upwards or downwards.
pub open spec fn may_stand_before(first: Datum, second: Datum, ascending: bool) -> bool {
    let (low, high) = if ascending { (first, second) } else { (second, first) };
    match (low, high) {
        (Datum::Integer(x), Datum::Integer(y)) => x <= y,
        (Datum::Text(x), Datum::Text(y)) => !text_less(y, x),
        (Datum::Boolean(x), Datum::Boolean(y)) => x ==> y,
        (Datum::Float(x), Datum::Float(y)) => !is_less(y, x),
        (_, Datum::Null) => low is Null,
        _ => true,
    }
}

/// After sorting by a column, every row's value there may stand before that of the next
/// row: numbers go up, texts go by their order, nulls come first; downwards, all of that
/// the other way round.
pub proof fn a_sorted_column_goes_up_or_down(
    input: Seq<Seq<Datum>>,
    n: int,
    column: int,
    ascending: bool,
    fl: FloatModel,
)
    requires
        0 <= n <= input.len(),
    ensures
        ({
            let s = sorted_rows(input, n, seq![Place { index: column, ascending }], fl);
            forall|i: int, j: int|
                0 <= i && i + 1 == j && j < s.len() ==> may_stand_before(
                    (#[trigger] s[i])[column],
                    (#[trigger] s[j])[column],
                    ascending,
                )
        }),
{
    let keys = seq![Place { index: column, ascending }];
    let s = sorted_rows(input, n, keys, fl);
    neighbours_are_in_order(input, n, keys, fl);
    assert forall|i: int, j: int| 0 <= i && i + 1 == j && j < s.len() implies may_stand_before(
        (#[trigger] s[i])[column],
        (#[trigger] s[j])[column],
        ascending,
    ) by {
        let a = s[i][column];
        let b = s[j][column];
        assert(row_order(s[i], s[j], keys, 0, fl) != Order::Greater);
        values_are_sorted_by_their_order(a, b, fl);
        values_are_sorted_by_their_order(b, a, fl);
        if sort_order(a, b, fl) == Order::Equal {
            the_first_difference_orders_rows(s[i], s[j], keys, 0, 1, fl);
        } else {
            the_first_difference_orders_rows(s[i], s[j], keys, 0, 0, fl);
        }
        match (a, b) {
            (Datum::Text(x), Datum::Text(y)) => {
                text_order_is_total(x, y);
            },
            _ => {},
        }
    }
}

} // verus!
