//! Aggregate calls: recognizing them in text and computing them over rows.

use vstd::prelude::*;
use vstd::string::StringExecFns;
use crate::execution::catalog::{SchemaModel, TableSchema};
use crate::execution::operators::{rows, Datum, Tuple, Value};
use crate::execution::row_codec::predicate::{value_at, widen, widened};
use crate::float::{
    greater, lesser, sum_floats, total, FloatModel, FloatOp, Floats, F64, INFINITY,
    NEGATIVE_INFINITY,
};
use crate::text::{
    alphabetic, alphanumeric, chars_of, decimal, is_alphabetic, is_alphanumeric, is_space, join2,
    push_char, same, slice_text, to_uppercase, trim_range, trimmed, unsigned_to_text, uppercase,
    white_space,
};

verus! {

/// An aggregate function.
#[derive(Clone, Copy, Debug, PartialEq, Eq, Structural)]
pub enum AggregateFn {
    Count,
    Sum,
    Avg,
    Min,
    Max,
}

/// An aggregate call as contracts speak of it: the function, and the column it
/// is taken over; none for `*` or no argument.
pub struct Call {
    pub function: AggregateFn,
    pub argument: Option<Seq<char>>,
}

/// The function of an upper-case name.
pub open spec fn function_named(upper: Seq<char>) -> Option<AggregateFn> {
    if upper == "COUNT"@ {
        Some(AggregateFn::Count)
    } else if upper == "SUM"@ {
        Some(AggregateFn::Sum)
    } else if upper == "AVG"@ {
        Some(AggregateFn::Avg)
    } else if upper == "MIN"@ {
        Some(AggregateFn::Min)
    } else if upper == "MAX"@ {
        Some(AggregateFn::Max)
    } else {
        None
    }
}

/// The function of an upper-case name.
pub fn aggregate_function(upper: &str) -> (r: Option<AggregateFn>)
    ensures
        r == function_named(upper@),
{
    if same(upper, "COUNT") {
        Some(AggregateFn::Count)
    } else if same(upper, "SUM") {
        Some(AggregateFn::Sum)
    } else if same(upper, "AVG") {
        Some(AggregateFn::Avg)
    } else if same(upper, "MIN") {
        Some(AggregateFn::Min)
    } else if same(upper, "MAX") {
        Some(AggregateFn::Max)
    } else {
        None
    }
}

/// The first place of `c` at `from` or after it.
pub open spec fn next_place(s: Seq<char>, c: char, from: int) -> Option<int>
    decreases s.len() - from,
{
    if from < 0 || from >= s.len() {
        None
    } else if s[from] == c {
        Some(from)
    } else {
        next_place(s, c, from + 1)
    }
}

/// The place of the parenthesis that closes the `depth` open ones, looked for from
/// `i` on.
pub open spec fn closing_place(s: Seq<char>, i: int, depth: int) -> Option<int>
    decreases s.len() - i,
{
    if i < 0 || i >= s.len() {
        None
    } else if s[i] == '(' {
        closing_place(s, i + 1, depth + 1)
    } else if s[i] == ')' {
        if depth <= 1 {
            Some(i)
        } else {
            closing_place(s, i + 1, depth - 1)
        }
    } else {
        closing_place(s, i + 1, depth)
    }
}

/// The aggregate call that a whole column text is: a function's name in any
/// case, and an argument in parentheses with which the text ends.
pub open spec fn aggregate_call(column: Seq<char>) -> Option<Call> {
    let s = trimmed(column);
    match next_place(s, '(', 0) {
        Some(open) => if closing_place(s, open + 1, 1) != Some(s.len() - 1) {
            None
        } else {
            match function_named(uppercase(trimmed(s.subrange(0, open)))) {
                Some(function) => {
                    let argument = trimmed(s.subrange(open + 1, s.len() - 1));
                    Some(
                        Call {
                            function,
                            argument: if argument.len() == 0 || argument == "*"@ {
                                None
                            } else {
                                Some(argument)
                            },
                        },
                    )
                },
                None => None,
            }
        },
        None => None,
    }
}

/// A text that may be missing, as its model.
pub open spec fn optional_text(s: Option<String>) -> Option<Seq<char>> {
    match s {
        Some(t) => Some(t@),
        None => None,
    }
}

/// Looks for the parenthesis that closes an open one.
fn find_close(v: &Vec<char>, from: usize, to: usize) -> (r: Option<usize>)
    requires
        1 <= from <= to <= v@.len(),
    ensures
        match r {
            Some(c) => closing_place(v@.take(to as int), from as int, 1) == Some(c as int) && from
                <= c < to,
            None => closing_place(v@.take(to as int), from as int, 1) is None,
        },
{
    let ghost s = v@.take(to as int);
    let mut i: usize = from;
    let mut depth: usize = 1;
    while i < to
        invariant
            1 <= from <= i <= to <= v@.len(),
            s == v@.take(to as int),
            1 <= depth <= 1 + (i - from),
            closing_place(s, from as int, 1) == closing_place(s, i as int, depth as int),
        decreases to - i,
    {
        assert(s[i as int] == v@[i as int]);
        if v[i] == '(' {
            depth = depth + 1;
        } else if v[i] == ')' {
            if depth == 1 {
                return Some(i);
            }
            depth = depth - 1;
        }
        i = i + 1;
    }
    None
}

proof fn lemma_closing_within(s: Seq<char>, a: int, b: int, i: int, depth: int)
    requires
        0 <= a <= i <= b <= s.len(),
    ensures
        closing_place(s.subrange(a, b), i - a, depth) == match closing_place(
            s.take(b),
            i,
            depth,
        ) {
            Some(c) => Some(c - a),
            None => None,
        },
    decreases b - i,
{
    if i < b {
        assert(s.subrange(a, b)[i - a] == s.take(b)[i]);
        lemma_closing_within(s, a, b, i + 1, depth);
        lemma_closing_within(s, a, b, i + 1, depth + 1);
        lemma_closing_within(s, a, b, i + 1, depth - 1);
    }
}

/// Reads a column text as one aggregate call.
pub fn parse_aggregate(column: &str) -> (r: Option<(AggregateFn, Option<String>)>)
    ensures
        match r {
            Some(c) => aggregate_call(column@) == Some(
                Call { function: c.0, argument: optional_text(c.1) },
            ),
            None => aggregate_call(column@) is None,
        },
{
    let v = chars_of(column);
    let (a, b) = trim_range(&v, 0, v.len());
    assert(v@.subrange(0, v@.len() as int) == v@);
    let ghost s = trimmed(column@);
    assert(s == v@.subrange(a as int, b as int));
    let mut open: usize = a;
    while open < b && v[open] != '('
        invariant
            a <= open <= b <= v@.len(),
            s == v@.subrange(a as int, b as int),
            next_place(s, '(', 0) == next_place(s, '(', open - a),
        decreases b - open,
    {
        open = open + 1;
    }
    if open == b {
        return None;
    }
    assert(next_place(s, '(', 0) == Some(open - a));
    let close: usize = match find_close(&v, open + 1, b) {
        Some(c) => c,
        None => {
            proof {
                lemma_closing_within(v@, a as int, b as int, open + 1, 1);
            }
            return None;
        },
    };
    proof {
        lemma_closing_within(v@, a as int, b as int, open + 1, 1);
    }
    if close + 1 != b {
        return None;
    }
    let (na, nb) = trim_range(&v, a, open);
    let name = slice_text(&v, na, nb);
    assert(v@.subrange(a as int, open as int) == s.subrange(0, open - a));
    let upper = to_uppercase(name.as_str());
    let function = match aggregate_function(upper.as_str()) {
        Some(f) => f,
        None => {
            return None;
        },
    };
    let (ga, gb) = trim_range(&v, open + 1, close);
    let argument = slice_text(&v, ga, gb);
    assert(v@.subrange(open + 1, close as int) == s.subrange(open - a + 1, close - a));
    if argument.as_str().is_empty() || same(argument.as_str(), "*") {
        Some((function, None))
    } else {
        Some((function, Some(argument)))
    }
}

// ---- computing ---------------------------------------------------------------

/// The number of the first `n` rows whose value at `idx` is there and not
/// null.
pub open spec fn present(input: Seq<Seq<Datum>>, idx: int, n: int) -> int
    decreases n,
{
    if n <= 0 || n > input.len() {
        0
    } else {
        let rest = present(input, idx, n - 1);
        match value_at(input[n - 1], idx) {
            Some(Datum::Null) => rest,
            None => rest,
            Some(_) => rest + 1,
        }
    }
}

/// The number that a value is, as a float.
pub open spec fn numeric(d: Option<Datum>, fl: FloatModel) -> Option<u64> {
    match d {
        Some(Datum::Integer(i)) => Some(widened(i, fl)),
        Some(Datum::Float(x)) => Some(x),
        _ => None,
    }
}

/// The numbers at `idx` among the first `n` rows, in their order.
pub open spec fn numbers(input: Seq<Seq<Datum>>, idx: int, n: int, fl: FloatModel) -> Seq<u64>
    decreases n,
{
    if n <= 0 || n > input.len() {
        Seq::empty()
    } else {
        let rest = numbers(input, idx, n - 1, fl);
        match numeric(value_at(input[n - 1], idx), fl) {
            Some(x) => rest.push(x),
            None => rest,
        }
    }
}

/// The least of the first `n` numbers.
pub open spec fn least(v: Seq<u64>, n: int) -> u64
    decreases n,
{
    if n <= 0 || n > v.len() { INFINITY } else { lesser(least(v, n - 1), v[n - 1]) }
}

/// The greatest of the first `n` numbers.
pub open spec fn greatest(v: Seq<u64>, n: int) -> u64
    decreases n,
{
    if n <= 0 || n > v.len() { NEGATIVE_INFINITY } else { greater(greatest(v, n - 1), v[n - 1]) }
}

/// What an aggregate is of numbers.
pub open spec fn aggregate_of(function: AggregateFn, v: Seq<u64>, fl: FloatModel) -> Datum {
    match function {
        AggregateFn::Sum => Datum::Float(total(v, fl)),
        AggregateFn::Avg => Datum::Float(
            (fl.gives)(
                FloatOp::Over,
                total(v, fl),
                (fl.gives)(FloatOp::OfCount, v.len() as u64, 0),
            ),
        ),
        AggregateFn::Min => Datum::Float(least(v, v.len() as int)),
        AggregateFn::Max => Datum::Float(greatest(v, v.len() as int)),
        AggregateFn::Count => Datum::Null,
    }
}

/// What an aggregate call is over rows. A count is an integer: of all rows,
/// or of those with a value in the column. The others are taken over the
/// numbers in the column, and are null where there are none or no such column.
pub open spec fn aggregated(
    call: Call,
    schema: SchemaModel,
    input: Seq<Seq<Datum>>,
    fl: FloatModel,
) -> Datum {
    match call.argument {
        None => if call.function == AggregateFn::Count {
            Datum::Integer(input.len() as i64)
        } else {
            Datum::Null
        },
        Some(name) => match schema.position(name) {
            None => Datum::Null,
            Some(idx) => if call.function == AggregateFn::Count {
                Datum::Integer(present(input, idx, input.len() as int) as i64)
            } else {
                let v = numbers(input, idx, input.len() as int, fl);
                if v.len() == 0 { Datum::Null } else { aggregate_of(call.function, v, fl) }
            },
        },
    }
}

fn count_present(tuples: &[Tuple], idx: usize) -> (r: usize)
    ensures
        r == present(rows(tuples@), idx as int, tuples@.len() as int),
{
    let mut n: usize = 0;
    let mut i: usize = 0;
    while i < tuples.len()
        invariant
            i <= tuples@.len(),
            n <= i,
            n == present(rows(tuples@), idx as int, i as int),
        decreases tuples@.len() - i,
    {
        assert(rows(tuples@)[i as int] == tuples@[i as int]@);
        if idx < tuples[i].values.len() {
            match &tuples[i].values[idx] {
                Value::Null => {},
                _ => {
                    n = n + 1;
                },
            }
        }
        i = i + 1;
    }
    n
}

fn collect_numbers<F: Floats>(tuples: &[Tuple], idx: usize, floats: &F) -> (r: Vec<u64>)
    requires
        floats.sound(),
    ensures
        r@ == numbers(rows(tuples@), idx as int, tuples@.len() as int, floats.model()),
{
    let mut out: Vec<u64> = Vec::new();
    let mut i: usize = 0;
    while i < tuples.len()
        invariant
            i <= tuples@.len(),
            floats.sound(),
            out@ == numbers(rows(tuples@), idx as int, i as int, floats.model()),
        decreases tuples@.len() - i,
    {
        assert(rows(tuples@)[i as int] == tuples@[i as int]@);
        if idx < tuples[i].values.len() {
            match &tuples[i].values[idx] {
                Value::Integer(n) => {
                    let x = widen(*n, floats);
                    out.push(x.bits);
                },
                Value::Float(x) => {
                    out.push(x.bits);
                },
                _ => {},
            }
        }
        i = i + 1;
    }
    out
}

fn least_of(v: &Vec<u64>) -> (r: u64)
    ensures
        r == least(v@, v@.len() as int),
{
    let mut acc = F64 { bits: INFINITY };
    let mut i: usize = 0;
    while i < v.len()
        invariant
            i <= v@.len(),
            acc.bits == least(v@, i as int),
        decreases v@.len() - i,
    {
        acc = acc.min(F64 { bits: v[i] });
        i = i + 1;
    }
    acc.bits
}

fn greatest_of(v: &Vec<u64>) -> (r: u64)
    ensures
        r == greatest(v@, v@.len() as int),
{
    let mut acc = F64 { bits: NEGATIVE_INFINITY };
    let mut i: usize = 0;
    while i < v.len()
        invariant
            i <= v@.len(),
            acc.bits == greatest(v@, i as int),
        decreases v@.len() - i,
    {
        acc = acc.max(F64 { bits: v[i] });
        i = i + 1;
    }
    acc.bits
}

/// A borrowed text that may be missing, as its model.
pub open spec fn optional_str(s: Option<&str>) -> Option<Seq<char>> {
    match s {
        Some(t) => Some(t@),
        None => None,
    }
}

/// Computes an aggregate over rows.
pub fn compute_aggregate<F: Floats>(
    func: AggregateFn,
    arg: Option<&str>,
    schema: &TableSchema,
    tuples: &[Tuple],
    floats: &F,
) -> (r: Value)
    requires
        floats.sound(),
    ensures
        r@ == aggregated(
            Call { function: func, argument: optional_str(arg) },
            schema@,
            rows(tuples@),
            floats.model(),
        ),
{
    let name = match arg {
        Some(name) => name,
        None => {
            return if func == AggregateFn::Count {
                Value::Integer(tuples.len() as i64)
            } else {
                Value::Null
            };
        },
    };
    let idx = match schema.position(name) {
        Some(idx) => idx,
        None => {
            return Value::Null;
        },
    };
    if func == AggregateFn::Count {
        return Value::Integer(count_present(tuples, idx) as i64);
    }
    let v = collect_numbers(tuples, idx, floats);
    if v.len() == 0 {
        return Value::Null;
    }
    match func {
        AggregateFn::Sum => Value::Float(F64 { bits: sum_floats(&v, floats) }),
        AggregateFn::Avg => {
            let total = sum_floats(&v, floats);
            let count = floats.apply(FloatOp::OfCount, v.len() as u64, 0);
            Value::Float(F64 { bits: floats.apply(FloatOp::Over, total, count) })
        },
        AggregateFn::Min => Value::Float(F64 { bits: least_of(&v) }),
        AggregateFn::Max => Value::Float(F64 { bits: greatest_of(&v) }),
        AggregateFn::Count => Value::Null,
    }
}

proof fn lemma_present(input: Seq<Seq<Datum>>, row: Seq<Datum>, idx: int, n: int)
    requires
        0 <= n <= input.len(),
    ensures
        0 <= present(input, idx, n) <= n,
        present(input.push(row), idx, n) == present(input, idx, n),
    decreases n,
{
    if n > 0 {
        lemma_present(input, row, idx, n - 1);
        assert(input.push(row)[n - 1] == input[n - 1]);
    }
}

/// A count without a column is that of the rows, one of a column that of the rows with a
/// value in it, and there is none of a column that does not exist. One more row without a
/// value adds one to the first and nothing to the second.
pub proof fn counts_leave_out_nulls(
    schema: SchemaModel,
    column: Seq<char>,
    input: Seq<Seq<Datum>>,
    row: Seq<Datum>,
    fl: FloatModel,
)
    ensures
        ({
            let all = Call { function: AggregateFn::Count, argument: None };
            let some = Call { function: AggregateFn::Count, argument: Some(column) };
            let more = input.push(row);
            &&& aggregated(all, schema, input, fl) == Datum::Integer(input.len() as i64)
            &&& aggregated(all, schema, more, fl) == Datum::Integer((input.len() + 1) as i64)
            &&& match schema.position(column) {
                None => aggregated(some, schema, input, fl) == Datum::Null,
                Some(idx) => {
                    let n = present(input, idx, input.len() as int);
                    &&& 0 <= n <= input.len()
                    &&& aggregated(some, schema, input, fl) == Datum::Integer(n as i64)
                    &&& aggregated(some, schema, more, fl) == Datum::Integer(
                        (if value_at(row, idx) matches Some(d) && !(d is Null) {
                            n + 1
                        } else {
                            n
                        }) as i64,
                    )
                },
            }
        }),
{
    if let Some(idx) = schema.position(column) {
        lemma_present(input, row, idx, input.len() as int);
        assert(input.push(row)[input.len() as int] == row);
    }
}

// ---- calls inside an expression -------------------------------------------------

pub open spec fn word_start(c: char) -> bool {
    alphabetic(c) || c == '_'
}

pub open spec fn word_part(c: char) -> bool {
    alphanumeric(c) || c == '_'
}

/// The place after the word that goes on at `i`.
pub open spec fn word_end(s: Seq<char>, i: int) -> int
    decreases s.len() - i,
{
    if 0 <= i < s.len() && word_part(s[i]) { word_end(s, i + 1) } else { i }
}

/// The first place at `i` or after it that is not white space.
pub open spec fn after_space(s: Seq<char>, i: int) -> int
    decreases s.len() - i,
{
    if 0 <= i < s.len() && is_space(s[i]) { after_space(s, i + 1) } else { i }
}

/// An expression with its aggregate calls taken out.
pub struct Extracted {
    pub text: Seq<char>,
    pub calls: Seq<Call>,
}

/// The name that stands for the aggregate call of this number.
pub open spec fn stand_in(n: int) -> Seq<char> {
    "__having_agg_"@ + decimal(n)
}

/// The aggregate call that the word from `i` to `end` begins, and the place after it.
pub open spec fn call_at(s: Seq<char>, i: int, end: int) -> Option<(Call, int)> {
    let open = after_space(s, end);
    if open < s.len() && s[open] == '(' {
        match closing_place(s, open + 1, 1) {
            Some(close) => match aggregate_call(s.subrange(i, close + 1)) {
                Some(call) => Some((call, close + 1)),
                None => None,
            },
            None => None,
        }
    } else {
        None
    }
}

/// What the expression `s` becomes from place `i` on, after `done`. An aggregate call
/// is replaced by a name, everything else stays.
pub open spec fn extracted_from(s: Seq<char>, i: int, done: Extracted) -> Extracted
    decreases s.len() - i,
{
    if i < 0 || i >= s.len() {
        done
    } else if word_start(s[i]) {
        let end = word_end(s, i + 1);
        match call_at(s, i, end) {
            Some((call, after)) => if after <= i || after > s.len() {
                done
            } else {
                extracted_from(
                    s,
                    after,
                    Extracted {
                        text: done.text + stand_in(done.calls.len() as int),
                        calls: done.calls.push(call),
                    },
                )
            },
            None => if end <= i || end > s.len() {
                done
            } else {
                extracted_from(
                    s,
                    end,
                    Extracted { text: done.text + s.subrange(i, end), ..done },
                )
            },
        }
    } else {
        extracted_from(s, i + 1, Extracted { text: done.text.push(s[i]), ..done })
    }
}

/// An expression with its aggregate calls replaced by names, and the calls in
/// the order of their names.
pub open spec fn extracted(s: Seq<char>) -> Extracted {
    extracted_from(s, 0, Extracted { text: Seq::empty(), calls: Seq::empty() })
}

/// The calls of a list, each as its model.
pub open spec fn call_models(v: Seq<(String, AggregateFn, Option<String>)>) -> Seq<Call> {
    v.map_values(
        |c: (String, AggregateFn, Option<String>)|
            Call { function: c.1, argument: optional_text(c.2) },
    )
}

/// Each call of the list carries the name that stands for it.
pub open spec fn named_in_order(v: Seq<(String, AggregateFn, Option<String>)>) -> bool {
    forall|i: int| 0 <= i < v.len() ==> (#[trigger] v[i]).0@ == stand_in(i)
}

fn find_word_end(v: &Vec<char>, from: usize) -> (r: usize)
    requires
        from <= v@.len(),
    ensures
        r == word_end(v@, from as int),
        from <= r <= v@.len(),
{
    let mut i: usize = from;
    while i < v.len() && (is_alphanumeric(v[i]) || v[i] == '_')
        invariant
            from <= i <= v@.len(),
            word_end(v@, from as int) == word_end(v@, i as int),
        decreases v@.len() - i,
    {
        i = i + 1;
    }
    i
}

fn skip_space(v: &Vec<char>, from: usize) -> (r: usize)
    requires
        from <= v@.len(),
    ensures
        r == after_space(v@, from as int),
        from <= r <= v@.len(),
{
    let mut i: usize = from;
    while i < v.len() && white_space(v[i])
        invariant
            from <= i <= v@.len(),
            after_space(v@, from as int) == after_space(v@, i as int),
        decreases v@.len() - i,
    {
        i = i + 1;
    }
    i
}

fn read_call(v: &Vec<char>, i: usize, end: usize) -> (r: Option<
    (AggregateFn, Option<String>, usize),
>)
    requires
        i < end <= v@.len(),
    ensures
        match r {
            Some(c) => call_at(v@, i as int, end as int) == Some(
                (Call { function: c.0, argument: optional_text(c.1) }, c.2 as int),
            ) && end < c.2 <= v@.len(),
            None => call_at(v@, i as int, end as int) is None,
        },
{
    let open = skip_space(v, end);
    if open >= v.len() || v[open] != '(' {
        return None;
    }
    assert(v@.take(v@.len() as int) == v@);
    let close = match find_close(v, open + 1, v.len()) {
        Some(c) => c,
        None => {
            return None;
        },
    };
    let text = slice_text(v, i, close + 1);
    match parse_aggregate(text.as_str()) {
        Some((function, argument)) => Some((function, argument, close + 1)),
        None => None,
    }
}

/// Replaces every aggregate call in an expression by a name, and returns the
/// calls with their names.
pub fn extract_calls(expr: &str) -> (r: (String, Vec<(String, AggregateFn, Option<String>)>))
    ensures
        r.0@ == extracted(expr@).text,
        call_models(r.1@) == extracted(expr@).calls,
        named_in_order(r.1@),
{
    let chars = chars_of(expr);
    let ghost s = expr@;
    let mut out = String::new();
    let mut calls: Vec<(String, AggregateFn, Option<String>)> = Vec::new();
    let mut i: usize = 0;
    assert(call_models(calls@) == Seq::<Call>::empty());
    while i < chars.len()
        invariant
            i <= chars@.len(),
            chars@ == s,
            named_in_order(calls@),
            extracted(s) == extracted_from(
                s,
                i as int,
                Extracted { text: out@, calls: call_models(calls@) },
            ),
        decreases chars@.len() - i,
    {
        let c = chars[i];
        if is_alphabetic(c) || c == '_' {
            let end = find_word_end(&chars, i + 1);
            match read_call(&chars, i, end) {
                Some((function, argument, after)) => {
                    let number = unsigned_to_text(calls.len() as u64);
                    let name = join2("__having_agg_", number.as_str());
                    out.append(name.as_str());
                    let ghost before = call_models(calls@);
                    let ghost call = Call { function, argument: optional_text(argument) };
                    calls.push((name, function, argument));
                    assert(call_models(calls@) == before.push(call));
                    i = after;
                },
                None => {
                    let word = slice_text(&chars, i, end);
                    out.append(word.as_str());
                    i = end;
                },
            }
        } else {
            push_char(&mut out, c);
            i = i + 1;
        }
    }
    (out, calls)
}

// ---- what taking calls out leaves -----------------------------------------------

/// The first `n + 1` of some texts with the first `n` of others between them.
pub open spec fn interleaved(gaps: Seq<Seq<char>>, between: Seq<Seq<char>>, n: int) -> Seq<char>
    decreases n,
{
    if n <= 0 {
        gaps[0]
    } else {
        interleaved(gaps, between, n - 1) + between[n - 1] + gaps[n]
    }
}

/// The names that stand for `n` calls.
pub open spec fn stand_ins(n: int) -> Seq<Seq<char>> {
    Seq::new(n as nat, |i: int| stand_in(i))
}

/// Whether a text is some texts with the texts of calls between them, and what is left of
/// it is the same with a name in place of each call.
pub open spec fn is_cut(
    s: Seq<char>,
    x: Extracted,
    gaps: Seq<Seq<char>>,
    taken: Seq<Seq<char>>,
) -> bool {
    let n = x.calls.len() as int;
    &&& taken.len() == n
    &&& gaps.len() == n + 1
    &&& s == interleaved(gaps, taken, n)
    &&& x.text == interleaved(gaps, stand_ins(n), n)
    &&& forall|i: int| 0 <= i < n ==> aggregate_call(#[trigger] taken[i]) == Some(x.calls[i])
}

proof fn lemma_interleaved_alike(
    a: Seq<Seq<char>>,
    b: Seq<Seq<char>>,
    x: Seq<Seq<char>>,
    y: Seq<Seq<char>>,
    n: int,
)
    requires
        0 <= n,
        forall|i: int| 0 <= i <= n ==> #[trigger] a[i] == b[i],
        forall|i: int| 0 <= i < n ==> #[trigger] x[i] == y[i],
    ensures
        interleaved(a, x, n) == interleaved(b, y, n),
    decreases n,
{
    assert(a[n] == b[n]);
    if n > 0 {
        lemma_interleaved_alike(a, b, x, y, n - 1);
        assert(x[n - 1] == y[n - 1]);
    }
}

proof fn lemma_longer_gap(gaps: Seq<Seq<char>>, between: Seq<Seq<char>>, n: int, more: Seq<char>)
    requires
        0 <= n < gaps.len(),
    ensures
        interleaved(gaps.update(n, gaps[n] + more), between, n) == interleaved(gaps, between, n)
            + more,
{
    let now = gaps.update(n, gaps[n] + more);
    if n > 0 {
        lemma_interleaved_alike(now, gaps, between, between, n - 1);
        let front = interleaved(gaps, between, n - 1) + between[n - 1];
        assert(front + (gaps[n] + more) =~= front + gaps[n] + more);
    }
}

proof fn lemma_word_end(s: Seq<char>, i: int)
    requires
        0 <= i <= s.len(),
    ensures
        i <= word_end(s, i) <= s.len(),
    decreases s.len() - i,
{
    if i < s.len() && word_part(s[i]) {
        lemma_word_end(s, i + 1);
    }
}

proof fn lemma_after_space(s: Seq<char>, i: int)
    requires
        0 <= i <= s.len(),
    ensures
        i <= after_space(s, i) <= s.len(),
    decreases s.len() - i,
{
    if i < s.len() && is_space(s[i]) {
        lemma_after_space(s, i + 1);
    }
}

proof fn lemma_closing_place(s: Seq<char>, i: int, depth: int)
    requires
        0 <= i,
    ensures
        closing_place(s, i, depth) matches Some(c) ==> i <= c < s.len(),
    decreases s.len() - i,
{
    if i < s.len() {
        lemma_closing_place(s, i + 1, depth);
        lemma_closing_place(s, i + 1, depth + 1);
        lemma_closing_place(s, i + 1, depth - 1);
    }
}

proof fn lemma_cut_more(
    s: Seq<char>,
    i: int,
    end: int,
    x: Extracted,
    gaps: Seq<Seq<char>>,
    taken: Seq<Seq<char>>,
)
    requires
        0 <= i <= end <= s.len(),
        is_cut(s.take(i), x, gaps, taken),
    ensures
        is_cut(
            s.take(end),
            Extracted { text: x.text + s.subrange(i, end), ..x },
            gaps.update(gaps.len() - 1, gaps.last() + s.subrange(i, end)),
            taken,
        ),
{
    let n = x.calls.len() as int;
    lemma_longer_gap(gaps, taken, n, s.subrange(i, end));
    lemma_longer_gap(gaps, stand_ins(n), n, s.subrange(i, end));
    assert(s.take(end) =~= s.take(i) + s.subrange(i, end));
}

proof fn lemma_cut_call(
    s: Seq<char>,
    i: int,
    end: int,
    x: Extracted,
    call: Call,
    gaps: Seq<Seq<char>>,
    taken: Seq<Seq<char>>,
)
    requires
        0 <= i <= end <= s.len(),
        is_cut(s.take(i), x, gaps, taken),
        aggregate_call(s.subrange(i, end)) == Some(call),
    ensures
        is_cut(
            s.take(end),
            Extracted {
                text: x.text + stand_in(x.calls.len() as int),
                calls: x.calls.push(call),
            },
            gaps.push(Seq::empty()),
            taken.push(s.subrange(i, end)),
        ),
{
    let n = x.calls.len() as int;
    let none = Seq::<char>::empty();
    let g = gaps.push(none);
    let t = taken.push(s.subrange(i, end));
    let names = stand_ins(n + 1);
    lemma_interleaved_alike(g, gaps, t, taken, n);
    lemma_interleaved_alike(g, gaps, names, stand_ins(n), n);
    assert(s.take(end) =~= s.take(i) + s.subrange(i, end) + none);
    assert(x.text + stand_in(n) =~= x.text + stand_in(n) + none);
    assert forall|k: int| 0 <= k < n + 1 implies aggregate_call(#[trigger] t[k]) == Some(
        x.calls.push(call)[k],
    ) by {
        if k < n {
            assert(t[k] == taken[k]);
        }
    }
}

proof fn lemma_taken_out(
    s: Seq<char>,
    i: int,
    done: Extracted,
    gaps: Seq<Seq<char>>,
    taken: Seq<Seq<char>>,
) -> (r: (Seq<Seq<char>>, Seq<Seq<char>>))
    requires
        0 <= i <= s.len(),
        is_cut(s.take(i), done, gaps, taken),
    ensures
        is_cut(s, extracted_from(s, i, done), r.0, r.1),
    decreases s.len() - i,
{
    if i == s.len() {
        assert(s.take(i) =~= s);
        (gaps, taken)
    } else if word_start(s[i]) {
        let end = word_end(s, i + 1);
        lemma_word_end(s, i + 1);
        lemma_after_space(s, end);
        lemma_closing_place(s, after_space(s, end) + 1, 1);
        match call_at(s, i, end) {
            Some((call, after)) => {
                lemma_cut_call(s, i, after, done, call, gaps, taken);
                lemma_taken_out(
                    s,
                    after,
                    Extracted {
                        text: done.text + stand_in(done.calls.len() as int),
                        calls: done.calls.push(call),
                    },
                    gaps.push(Seq::empty()),
                    taken.push(s.subrange(i, after)),
                )
            },
            None => {
                lemma_cut_more(s, i, end, done, gaps, taken);
                lemma_taken_out(
                    s,
                    end,
                    Extracted { text: done.text + s.subrange(i, end), ..done },
                    gaps.update(gaps.len() - 1, gaps.last() + s.subrange(i, end)),
                    taken,
                )
            },
        }
    } else {
        lemma_cut_more(s, i, i + 1, done, gaps, taken);
        assert(done.text + s.subrange(i, i + 1) =~= done.text.push(s[i]));
        lemma_taken_out(
            s,
            i + 1,
            Extracted { text: done.text.push(s[i]), ..done },
            gaps.update(gaps.len() - 1, gaps.last() + s.subrange(i, i + 1)),
            taken,
        )
    }
}

/// Taking the aggregate calls out of an expression leaves the expression with a name in
/// place of each, in order; where it has none, the expression itself.
pub proof fn calls_are_cut_out(s: Seq<char>)
    ensures
        exists|gaps: Seq<Seq<char>>, taken: Seq<Seq<char>>| is_cut(s, extracted(s), gaps, taken),
        extracted(s).calls.len() == 0 ==> extracted(s).text == s,
{
    let none = Extracted { text: Seq::empty(), calls: Seq::empty() };
    let gaps = seq![Seq::<char>::empty()];
    let taken = Seq::<Seq<char>>::empty();
    assert(s.take(0) =~= gaps[0]);
    assert(is_cut(s.take(0), none, gaps, taken));
    let r = lemma_taken_out(s, 0, none, gaps, taken);
    assert(is_cut(s, extracted(s), r.0, r.1));
}

} // verus!
