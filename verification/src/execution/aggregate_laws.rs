//! What the aggregates of a column are.

use vstd::prelude::*;
use crate::execution::aggregate::{
    aggregate_call, aggregated, closing_place, function_named, greatest, least, next_place,
    numbers, numeric, present, AggregateFn, Call,
};
use crate::execution::catalog::SchemaModel;
use crate::execution::operators::Datum;
use crate::execution::row_codec::predicate::value_at;
use crate::float::{
    floats_are_ordered, is_at_most, is_less, not_a_number,
    the_lesser_and_the_greater_are_one_of_both, FloatModel, FloatOp, INFINITY,
    NEGATIVE_INFINITY,
};
use crate::text::{trimmed, uppercase};

verus! {

/// A row has this number in a column: a float, or an integer as the unit's float.
pub open spec fn has_number(row: Seq<Datum>, column: int, x: u64, fl: FloatModel) -> bool {
    0 <= column < row.len() && match row[column] {
        Datum::Float(y) => x == y,
        Datum::Integer(n) => x == (fl.gives)(FloatOp::OfInteger, n as u64, 0),
        _ => false,
    }
}

/// A row has some number in a column.
pub open spec fn is_numeric(row: Seq<Datum>, column: int) -> bool {
    0 <= column < row.len() && (row[column] is Float || row[column] is Integer)
}

/// A row has a value in a column that is not null.
pub open spec fn is_present(row: Seq<Datum>, column: int) -> bool {
    0 <= column < row.len() && !(row[column] is Null)
}

/// The numbers of a column that rows have are numbers indeed.
pub open spec fn all_numbers(input: Seq<Seq<Datum>>, column: int, fl: FloatModel) -> bool {
    forall|i: int, x: u64|
        0 <= i < input.len() && #[trigger] has_number(input[i], column, x, fl) ==> !not_a_number(x)
}

/// Some row has this number in a column.
pub open spec fn is_in_column(
    input: Seq<Seq<Datum>>,
    column: int,
    m: u64,
    fl: FloatModel,
) -> bool {
    exists|i: int| 0 <= i < input.len() && #[trigger] has_number(input[i], column, m, fl)
}

/// No row has a number in a column that is less.
pub open spec fn none_is_less(
    input: Seq<Seq<Datum>>,
    column: int,
    m: u64,
    fl: FloatModel,
) -> bool {
    forall|i: int, x: u64|
        0 <= i < input.len() && #[trigger] has_number(input[i], column, x, fl) ==> !is_less(x, m)
}

/// No row has a number in a column that is greater.
pub open spec fn none_is_greater(
    input: Seq<Seq<Datum>>,
    column: int,
    m: u64,
    fl: FloatModel,
) -> bool {
    forall|i: int, x: u64|
        0 <= i < input.len() && #[trigger] has_number(input[i], column, x, fl) ==> !is_less(m, x)
}

proof fn lemma_numbers(input: Seq<Seq<Datum>>, column: int, n: int, fl: FloatModel)
    requires
        0 <= n <= input.len(),
    ensures
        ({
            let v = numbers(input, column, n, fl);
            &&& v.len() == input.take(n).filter(|row: Seq<Datum>| is_numeric(row, column)).len()
            &&& forall|k: int|
                0 <= k < v.len() ==> exists|i: int|
                    0 <= i < n && has_number(input[i], column, #[trigger] v[k], fl)
            &&& forall|i: int, x: u64|
                0 <= i < n && #[trigger] has_number(input[i], column, x, fl) ==> v.contains(x)
        }),
    decreases n,
{
    let p = |row: Seq<Datum>| is_numeric(row, column);
    let v = numbers(input, column, n, fl);
    if n == 0 {
        assert(input.take(0) =~= Seq::empty());
        reveal(Seq::filter);
    } else {
        lemma_numbers(input, column, n - 1, fl);
        let before = numbers(input, column, n - 1, fl);
        let row = input[n - 1];
        assert(input.take(n).drop_last() =~= input.take(n - 1));
        assert(input.take(n).last() == row);
        reveal(Seq::filter);
        assert(value_at(row, column) == if 0 <= column < row.len() { Some(row[column]) } else {
            None
        });
        assert forall|k: int| 0 <= k < v.len() implies exists|i: int|
            0 <= i < n && has_number(input[i], column, #[trigger] v[k], fl) by {
            if k < before.len() {
                assert(v[k] == before[k]);
                let i = choose|i: int| 0 <= i < n - 1 && has_number(input[i], column, before[k], fl);
                assert(has_number(input[i], column, v[k], fl));
            } else {
                assert(has_number(input[n - 1], column, v[k], fl));
            }
        }
        assert forall|i: int, x: u64|
            0 <= i < n && #[trigger] has_number(input[i], column, x, fl) implies v.contains(x) by {
            if i < n - 1 {
                assert(before.contains(x));
                let k = choose|k: int| 0 <= k < before.len() && before[k] == x;
                assert(v[k] == x);
            } else {
                assert(v[v.len() - 1] == x);
            }
        }
    }
}

proof fn lemma_least(v: Seq<u64>, n: int)
    requires
        0 <= n <= v.len(),
        forall|i: int| 0 <= i < v.len() ==> !not_a_number(#[trigger] v[i]),
    ensures
        n == 0 ==> least(v, n) == INFINITY && greatest(v, n) == NEGATIVE_INFINITY,
        n > 0 ==> v.take(n).contains(least(v, n)) && v.take(n).contains(greatest(v, n)),
        forall|i: int| 0 <= i < n ==> is_at_most(least(v, n), #[trigger] v[i]),
        forall|i: int| 0 <= i < n ==> is_at_most(#[trigger] v[i], greatest(v, n)),
        !not_a_number(least(v, n)) && !not_a_number(greatest(v, n)),
    decreases n,
{
    if n > 0 {
        lemma_least(v, n - 1);
        let a = least(v, n - 1);
        let b = greatest(v, n - 1);
        the_lesser_and_the_greater_are_one_of_both(a, v[n - 1]);
        the_lesser_and_the_greater_are_one_of_both(b, v[n - 1]);
        assert(v.take(n)[n - 1] == v[n - 1]);
        if n > 1 {
            let w = v.take(n - 1);
            let k = choose|k: int| 0 <= k < w.len() && w[k] == a;
            assert(v.take(n)[k] == a);
            let m = choose|k: int| 0 <= k < w.len() && w[k] == b;
            assert(v.take(n)[m] == b);
        } else {
            let x = v[0];
            if least(v, 1) == INFINITY {
                assert(x == INFINITY);
            }
            if greatest(v, 1) == NEGATIVE_INFINITY {
                assert(x == NEGATIVE_INFINITY);
            }
        }
        assert forall|i: int| 0 <= i < n implies is_at_most(least(v, n), #[trigger] v[i]) by {
            if i < n - 1 {
                assert(is_at_most(a, v[i]));
            }
        }
        assert forall|i: int| 0 <= i < n implies is_at_most(#[trigger] v[i], greatest(v, n)) by {
            if i < n - 1 {
                assert(is_at_most(v[i], b));
            }
        }
    }
}

/// The least of a column is one of its numbers, and none of them is less; the greatest is
/// one of them, and none is greater.
pub proof fn the_least_and_the_greatest_are_in_the_column(
    schema: SchemaModel,
    name: Seq<char>,
    column: int,
    input: Seq<Seq<Datum>>,
    fl: FloatModel,
)
    requires
        schema.position(name) == Some(column),
        all_numbers(input, column, fl),
        exists|i: int| 0 <= i < input.len() && is_numeric(#[trigger] input[i], column),
    ensures
        ({
            let min = Call { function: AggregateFn::Min, argument: Some(name) };
            let max = Call { function: AggregateFn::Max, argument: Some(name) };
            &&& aggregated(min, schema, input, fl) is Float
            &&& aggregated(max, schema, input, fl) is Float
            &&& is_in_column(input, column, aggregated(min, schema, input, fl)->Float_0, fl)
            &&& none_is_less(input, column, aggregated(min, schema, input, fl)->Float_0, fl)
            &&& is_in_column(input, column, aggregated(max, schema, input, fl)->Float_0, fl)
            &&& none_is_greater(input, column, aggregated(max, schema, input, fl)->Float_0, fl)
        }),
{
    let n = input.len() as int;
    let v = numbers(input, column, n, fl);
    lemma_numbers(input, column, n, fl);
    let j = choose|i: int| 0 <= i < input.len() && is_numeric(#[trigger] input[i], column);
    let y = match input[j][column] {
        Datum::Float(x) => x,
        Datum::Integer(k) => (fl.gives)(FloatOp::OfInteger, k as u64, 0),
        _ => 0,
    };
    assert(has_number(input[j], column, y, fl));
    assert(v.contains(y));
    assert forall|k: int| 0 <= k < v.len() implies !not_a_number(#[trigger] v[k]) by {
        let i = choose|i: int| 0 <= i < n && has_number(input[i], column, v[k], fl);
    }
    lemma_least(v, v.len() as int);
    assert(v.take(v.len() as int) =~= v);
    let m = least(v, v.len() as int);
    let g = greatest(v, v.len() as int);
    let a = choose|k: int| 0 <= k < v.len() && v[k] == m;
    let i = choose|i: int| 0 <= i < n && has_number(input[i], column, v[a], fl);
    assert(has_number(input[i], column, m, fl));
    let b = choose|k: int| 0 <= k < v.len() && v[k] == g;
    let l = choose|i: int| 0 <= i < n && has_number(input[i], column, v[b], fl);
    assert(has_number(input[l], column, g, fl));
    assert forall|i: int, x: u64|
        0 <= i < input.len() && #[trigger] has_number(input[i], column, x, fl) implies !is_less(x, m)
        && !is_less(g, x) by {
        assert(v.contains(x));
        let k = choose|k: int| 0 <= k < v.len() && v[k] == x;
        assert(is_at_most(m, v[k]) && is_at_most(v[k], g));
        floats_are_ordered(m, x);
        floats_are_ordered(x, g);
    }
    assert(v.len() > 0);
    let min = Call { function: AggregateFn::Min, argument: Some(name) };
    let max = Call { function: AggregateFn::Max, argument: Some(name) };
    assert(aggregated(min, schema, input, fl) == Datum::Float(m));
    assert(aggregated(max, schema, input, fl) == Datum::Float(g));
    assert(is_in_column(input, column, m, fl) && none_is_less(input, column, m, fl));
    assert(is_in_column(input, column, g, fl) && none_is_greater(input, column, g, fl));
}

/// A row more adds its number to the sum of a column, a row without one leaves it as it is.
/// The sum of a single number is that number.
pub proof fn a_row_more_adds_its_number(
    schema: SchemaModel,
    name: Seq<char>,
    column: int,
    input: Seq<Seq<Datum>>,
    row: Seq<Datum>,
    x: u64,
    fl: FloatModel,
)
    requires
        schema.position(name) == Some(column),
    ensures
        ({
            let sum = Call { function: AggregateFn::Sum, argument: Some(name) };
            let before = aggregated(sum, schema, input, fl);
            let after = aggregated(sum, schema, input.push(row), fl);
            &&& !is_numeric(row, column) ==> after == before
            &&& has_number(row, column, x, fl) && before is Null ==> after == Datum::Float(x)
            &&& has_number(row, column, x, fl) && before is Float ==> after == Datum::Float(
                (fl.gives)(FloatOp::Plus, before->Float_0, x),
            )
            &&& before is Null || before is Float
        }),
{
    let n = input.len() as int;
    let v = numbers(input, column, n, fl);
    lemma_numbers_of_more(input, row, column, n, fl);
    assert(input.push(row)[n] == row);
    let w = numbers(input.push(row), column, n + 1, fl);
    if is_numeric(row, column) {
        let y = numeric(value_at(row, column), fl)->0;
        assert(w == v.push(y));
        assert(w.drop_last() =~= v);
    }
}

proof fn lemma_numbers_of_more(
    input: Seq<Seq<Datum>>,
    row: Seq<Datum>,
    column: int,
    n: int,
    fl: FloatModel,
)
    requires
        0 <= n <= input.len(),
    ensures
        numbers(input.push(row), column, n, fl) == numbers(input, column, n, fl),
    decreases n,
{
    if n > 0 {
        lemma_numbers_of_more(input, row, column, n - 1, fl);
        assert(input.push(row)[n - 1] == input[n - 1]);
    }
}

/// The average is the sum divided by the number of rows that have a number; there is none
/// where no row has, as there is no least, no greatest and no sum.
pub proof fn an_average_is_the_sum_over_the_numbers(
    schema: SchemaModel,
    name: Seq<char>,
    column: int,
    input: Seq<Seq<Datum>>,
    fl: FloatModel,
)
    requires
        schema.position(name) == Some(column),
    ensures
        ({
            let of = |function: AggregateFn|
                aggregated(Call { function, argument: Some(name) }, schema, input, fl);
            let n = input.filter(|row: Seq<Datum>| is_numeric(row, column)).len();
            &&& n == 0 ==> of(AggregateFn::Sum) == Datum::Null && of(AggregateFn::Avg)
                == Datum::Null && of(AggregateFn::Min) == Datum::Null && of(AggregateFn::Max)
                == Datum::Null
            &&& n > 0 ==> of(AggregateFn::Sum) is Float && of(AggregateFn::Avg) == Datum::Float(
                (fl.gives)(
                    FloatOp::Over,
                    of(AggregateFn::Sum)->Float_0,
                    (fl.gives)(FloatOp::OfCount, n as u64, 0),
                ),
            )
        }),
{
    lemma_numbers(input, column, input.len() as int, fl);
    assert(input.take(input.len() as int) =~= input);
}

proof fn lemma_present_rows(input: Seq<Seq<Datum>>, column: int, n: int)
    requires
        0 <= n <= input.len(),
    ensures
        present(input, column, n) == input.take(n).filter(
            |row: Seq<Datum>| is_present(row, column),
        ).len(),
    decreases n,
{
    reveal(Seq::filter);
    if n > 0 {
        lemma_present_rows(input, column, n - 1);
        assert(input.take(n).drop_last() =~= input.take(n - 1));
        assert(input.take(n).last() == input[n - 1]);
    } else {
        assert(input.take(0) =~= Seq::empty());
    }
}

/// A count without a column is the number of rows, one of a column that of the rows with a
/// value there.
pub proof fn a_count_is_the_number_of_rows(
    schema: SchemaModel,
    name: Seq<char>,
    column: int,
    input: Seq<Seq<Datum>>,
    fl: FloatModel,
)
    requires
        schema.position(name) == Some(column),
        input.len() <= i64::MAX,
    ensures
        aggregated(Call { function: AggregateFn::Count, argument: None }, schema, input, fl)
            == Datum::Integer(input.len() as i64),
        aggregated(Call { function: AggregateFn::Count, argument: Some(name) }, schema, input, fl)
            == Datum::Integer(
            input.filter(|row: Seq<Datum>| is_present(row, column)).len() as i64,
        ),
{
    lemma_present_rows(input, column, input.len() as int);
    assert(input.take(input.len() as int) =~= input);
}

/// Each function has one name in capitals.
pub proof fn functions_are_named(upper: Seq<char>)
    ensures
        (function_named(upper) == Some(AggregateFn::Count)) <==> upper == seq![
            'C', 'O', 'U', 'N', 'T',
        ],
        (function_named(upper) == Some(AggregateFn::Sum)) <==> upper == seq!['S', 'U', 'M'],
        (function_named(upper) == Some(AggregateFn::Avg)) <==> upper == seq!['A', 'V', 'G'],
        (function_named(upper) == Some(AggregateFn::Min)) <==> upper == seq!['M', 'I', 'N'],
        (function_named(upper) == Some(AggregateFn::Max)) <==> upper == seq!['M', 'A', 'X'],
{
    reveal_strlit("COUNT");
    reveal_strlit("SUM");
    reveal_strlit("AVG");
    reveal_strlit("MIN");
    reveal_strlit("MAX");
    let count = seq!['C', 'O', 'U', 'N', 'T'];
    let sum = seq!['S', 'U', 'M'];
    let avg = seq!['A', 'V', 'G'];
    let min = seq!['M', 'I', 'N'];
    let max = seq!['M', 'A', 'X'];
    assert("COUNT"@ =~= count);
    assert("SUM"@ =~= sum);
    assert("AVG"@ =~= avg);
    assert("MIN"@ =~= min);
    assert("MAX"@ =~= max);
    assert(sum[0] == 'S' && avg[0] == 'A' && min[0] == 'M' && min[1] == 'I' && max[1] == 'A');
    assert(max[0] == 'M');
}

proof fn lemma_next_place(s: Seq<char>, c: char, from: int, at: int)
    requires
        0 <= from <= at < s.len(),
        s[at] == c,
        forall|i: int| from <= i < at ==> s[i] != c,
    ensures
        next_place(s, c, from) == Some(at),
    decreases at - from,
{
    if from < at {
        lemma_next_place(s, c, from + 1, at);
    }
}

proof fn lemma_closes_at_the_end(s: Seq<char>, i: int)
    requires
        0 <= i < s.len(),
        s.last() == ')',
        forall|k: int| i <= k < s.len() - 1 ==> s[k] != '(' && s[k] != ')',
    ensures
        closing_place(s, i, 1) == Some(s.len() - 1),
    decreases s.len() - i,
{
    if i < s.len() - 1 {
        lemma_closes_at_the_end(s, i + 1);
    }
}

/// A name and an argument in parentheses are a call of the function of that name, in any
/// case, over the argument. Of `*`, or of nothing, it is a call without a column.
pub proof fn a_call_names_its_function_and_column(word: Seq<char>, argument: Seq<char>)
    requires
        forall|i: int| 0 <= i < word.len() ==> word[i] != '(' && word[i] != ')',
        forall|i: int| 0 <= i < argument.len() ==> argument[i] != '(' && argument[i] != ')',
        trimmed(word + seq!['('] + argument + seq![')']) == word + seq!['('] + argument + seq![')'],
    ensures
        ({
            let call = aggregate_call(word + seq!['('] + argument + seq![')']);
            let inner = trimmed(argument);
            match function_named(uppercase(trimmed(word))) {
                None => call is None,
                Some(function) => call matches Some(c) && c.function == function && c.argument
                    == if inner.len() == 0 || inner == seq!['*'] {
                    None
                } else {
                    Some(inner)
                },
            }
        }),
{
    let s = word + seq!['('] + argument + seq![')'];
    let open = word.len() as int;
    lemma_next_place(s, '(', 0, open);
    assert forall|k: int| open + 1 <= k < s.len() - 1 implies s[k] != '(' && s[k] != ')' by {
        assert(s[k] == argument[k - open - 1]);
    }
    lemma_closes_at_the_end(s, open + 1);
    assert(s.subrange(0, open) =~= word);
    assert(s.subrange(open + 1, s.len() - 1) =~= argument);
    reveal_strlit("*");
    assert("*"@ =~= seq!['*']);
}

} // verus!
