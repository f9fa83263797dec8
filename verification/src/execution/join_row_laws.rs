//! Which rows a join has, and under which names.

use vstd::prelude::*;
use crate::execution::catalog::{column_place, ColumnModel, SchemaModel};
use crate::execution::join::{
    by_left, condition_matcher, lone_lefts, lone_rights, nulls, unmatched, with_rights, Matcher,
};
use crate::execution::join_schema::{
    base_from, base_name, base_start, joined, loop_joined, merged_schema,
    natural_condition, qualified, shared_columns, using_condition, JoinText,
};
use crate::execution::operators::Datum;
use crate::execution::relation::RelationModel;
use crate::execution::row_codec::predicate::{keeps, predicate_of, split_evaluation_agrees, Expr};
use crate::float::FloatModel;
use crate::sql::parser::JoinKind;

verus! {

/// Two rows match and are joined into this one.
pub open spec fn is_pair(a: Seq<Datum>, b: Seq<Datum>, m: Matcher, row: Seq<Datum>) -> bool {
    m(a, b) && row == a + b
}

proof fn lemma_with_rights(left: Seq<Datum>, r: Seq<Seq<Datum>>, m: Matcher, n: int, row: Seq<Datum>)
    requires
        0 <= n <= r.len(),
    ensures
        with_rights(left, r, m, n).contains(row) <==> exists|j: int|
            0 <= j < n && is_pair(left, #[trigger] r[j], m, row),
    decreases n,
{
    if n > 0 {
        lemma_with_rights(left, r, m, n - 1, row);
        let before = with_rights(left, r, m, n - 1);
        let after = with_rights(left, r, m, n);
        if before.contains(row) {
            let k = choose|k: int| 0 <= k < before.len() && before[k] == row;
            assert(after[k] == row);
        }
        if is_pair(left, r[n - 1], m, row) {
            assert(after.last() == row);
            assert(after[after.len() - 1] == row);
        }
        if after.contains(row) && !before.contains(row) {
            let k = choose|k: int| 0 <= k < after.len() && after[k] == row;
            if k < before.len() {
                assert(before[k] == row);
            }
            assert(is_pair(left, r[n - 1], m, row));
        }
    }
}

/// The pairs of a join are those of a left and a right row that match, every one of them
/// and nothing else, the left row's values first.
pub proof fn a_join_pairs_the_rows_that_match(
    l: Seq<Seq<Datum>>,
    r: Seq<Seq<Datum>>,
    m: Matcher,
    n: int,
    row: Seq<Datum>,
)
    requires
        0 <= n <= l.len(),
    ensures
        by_left(l, r, m, n).contains(row) <==> exists|i: int, j: int|
            0 <= i < n && 0 <= j < r.len() && is_pair(#[trigger] l[i], #[trigger] r[j], m, row),
    decreases n,
{
    if n > 0 {
        a_join_pairs_the_rows_that_match(l, r, m, n - 1, row);
        lemma_with_rights(l[n - 1], r, m, r.len() as int, row);
        let before = by_left(l, r, m, n - 1);
        let more = with_rights(l[n - 1], r, m, r.len() as int);
        let after = by_left(l, r, m, n);
        assert(after == before + more);
        if before.contains(row) {
            let k = choose|k: int| 0 <= k < before.len() && before[k] == row;
            assert(after[k] == row);
        }
        if more.contains(row) {
            let k = choose|k: int| 0 <= k < more.len() && more[k] == row;
            assert(after[before.len() + k] == row);
        }
        if after.contains(row) {
            let k = choose|k: int| 0 <= k < after.len() && after[k] == row;
            if k < before.len() {
                assert(before[k] == row);
            } else {
                assert(more[k - before.len()] == row);
            }
        }
    }
}

/// A left row more adds its pairs at the end, and a right row more adds a pair, at the end
/// of a left row's, where the two match.
pub proof fn a_row_more_adds_its_pairs(
    l: Seq<Seq<Datum>>,
    left: Seq<Datum>,
    r: Seq<Seq<Datum>>,
    right: Seq<Datum>,
    m: Matcher,
)
    ensures
        by_left(l.push(left), r, m, l.len() + 1int) == by_left(l, r, m, l.len() as int)
            + with_rights(left, r, m, r.len() as int),
        with_rights(left, r.push(right), m, r.len() + 1int) == if m(left, right) {
            with_rights(left, r, m, r.len() as int).push(left + right)
        } else {
            with_rights(left, r, m, r.len() as int)
        },
{
    lemma_by_left_of_more(l, left, r, m, l.len() as int);
    lemma_with_rights_of_more(left, r, right, m, r.len() as int);
    assert(l.push(left)[l.len() as int] == left);
    assert(r.push(right)[r.len() as int] == right);
}

proof fn lemma_by_left_of_more(
    l: Seq<Seq<Datum>>,
    left: Seq<Datum>,
    r: Seq<Seq<Datum>>,
    m: Matcher,
    n: int,
)
    requires
        0 <= n <= l.len(),
    ensures
        by_left(l.push(left), r, m, n) == by_left(l, r, m, n),
    decreases n,
{
    if n > 0 {
        lemma_by_left_of_more(l, left, r, m, n - 1);
        assert(l.push(left)[n - 1] == l[n - 1]);
    }
}

proof fn lemma_with_rights_of_more(
    left: Seq<Datum>,
    r: Seq<Seq<Datum>>,
    right: Seq<Datum>,
    m: Matcher,
    n: int,
)
    requires
        0 <= n <= r.len(),
    ensures
        with_rights(left, r.push(right), m, n) == with_rights(left, r, m, n),
    decreases n,
{
    if n > 0 {
        lemma_with_rights_of_more(left, r, right, m, n - 1);
        assert(r.push(right)[n - 1] == r[n - 1]);
    }
}

/// A left row that matches no right one.
pub open spec fn is_lone_left(left: Seq<Datum>, r: Seq<Seq<Datum>>, m: Matcher) -> bool {
    forall|j: int| 0 <= j < r.len() ==> !m(left, #[trigger] r[j])
}

/// A right row that no left one matches.
pub open spec fn is_lone_right(l: Seq<Seq<Datum>>, right: Seq<Datum>, m: Matcher) -> bool {
    forall|i: int| 0 <= i < l.len() ==> !m(#[trigger] l[i], right)
}

/// A row of so many nulls.
pub open spec fn is_empty_row(row: Seq<Datum>, cols: int) -> bool {
    row.len() == cols && forall|i: int| 0 <= i < cols ==> #[trigger] row[i] == Datum::Null
}

proof fn lemma_lone_lefts(
    l: Seq<Seq<Datum>>,
    r: Seq<Seq<Datum>>,
    m: Matcher,
    cols: int,
    n: int,
    row: Seq<Datum>,
)
    requires
        0 <= n <= l.len(),
        0 <= cols,
    ensures
        lone_lefts(l, r, m, cols, n).contains(row) <==> exists|i: int|
            0 <= i < n && is_lone_left(#[trigger] l[i], r, m) && row == l[i] + nulls(cols),
    decreases n,
{
    if n > 0 {
        lemma_lone_lefts(l, r, m, cols, n - 1, row);
        let before = lone_lefts(l, r, m, cols, n - 1);
        let after = lone_lefts(l, r, m, cols, n);
        if before.contains(row) {
            let k = choose|k: int| 0 <= k < before.len() && before[k] == row;
            assert(after[k] == row);
        }
        if is_lone_left(l[n - 1], r, m) {
            assert(after.last() == l[n - 1] + nulls(cols));
            assert(after[after.len() - 1] == after.last());
        }
        if after.contains(row) && !before.contains(row) {
            let k = choose|k: int| 0 <= k < after.len() && after[k] == row;
            if k < before.len() {
                assert(before[k] == row);
            }
            assert(is_lone_left(l[n - 1], r, m));
        }
    }
}

proof fn lemma_lone_rights(
    l: Seq<Seq<Datum>>,
    r: Seq<Seq<Datum>>,
    m: Matcher,
    cols: int,
    n: int,
    row: Seq<Datum>,
)
    requires
        0 <= n <= r.len(),
        0 <= cols,
    ensures
        lone_rights(l, r, m, cols, n).contains(row) <==> exists|j: int|
            0 <= j < n && is_lone_right(l, #[trigger] r[j], m) && row == nulls(cols) + r[j],
    decreases n,
{
    if n > 0 {
        lemma_lone_rights(l, r, m, cols, n - 1, row);
        let before = lone_rights(l, r, m, cols, n - 1);
        let after = lone_rights(l, r, m, cols, n);
        if before.contains(row) {
            let k = choose|k: int| 0 <= k < before.len() && before[k] == row;
            assert(after[k] == row);
        }
        if is_lone_right(l, r[n - 1], m) {
            assert(after.last() == nulls(cols) + r[n - 1]);
            assert(after[after.len() - 1] == after.last());
        }
        if after.contains(row) && !before.contains(row) {
            let k = choose|k: int| 0 <= k < after.len() && after[k] == row;
            if k < before.len() {
                assert(before[k] == row);
            }
            assert(is_lone_right(l, r[n - 1], m));
        }
    }
}

/// A left and a full join also have each left row without a match, followed by nulls in
/// the right columns, a right and a full join each right row without one, after nulls in
/// the left columns; an inner join has no such rows.
pub proof fn outer_joins_fill_up_with_nulls(
    kind: JoinKind,
    l: Seq<Seq<Datum>>,
    r: Seq<Seq<Datum>>,
    m: Matcher,
    left_cols: int,
    right_cols: int,
    row: Seq<Datum>,
)
    requires
        0 <= left_cols,
        0 <= right_cols,
    ensures
        ({
            let left = exists|i: int|
                0 <= i < l.len() && is_lone_left(#[trigger] l[i], r, m) && row == l[i] + nulls(
                    right_cols,
                );
            let right = exists|j: int|
                0 <= j < r.len() && is_lone_right(l, #[trigger] r[j], m) && row == nulls(left_cols)
                    + r[j];
            unmatched(kind, l, r, m, left_cols, right_cols).contains(row) <==> match kind {
                JoinKind::Inner => false,
                JoinKind::Left => left,
                JoinKind::Right => right,
                JoinKind::FullOuter => left || right,
            }
        }),
        is_empty_row(nulls(left_cols), left_cols),
        is_empty_row(nulls(right_cols), right_cols),
{
    lemma_lone_lefts(l, r, m, right_cols, l.len() as int, row);
    lemma_lone_rights(l, r, m, left_cols, r.len() as int, row);
    let a = lone_lefts(l, r, m, right_cols, l.len() as int);
    let b = lone_rights(l, r, m, left_cols, r.len() as int);
    let none = Seq::<Seq<Datum>>::empty();
    assert(a + none =~= a);
    assert(none + b =~= b);
    assert(none + none =~= none);
    if (a + b).contains(row) {
        let k = choose|k: int| 0 <= k < (a + b).len() && (#[trigger] (a + b)[k]) == row;
        if k < a.len() {
            assert(a[k] == row);
        } else {
            assert(b[k - a.len()] == row);
        }
    }
    if a.contains(row) {
        let k = choose|k: int| 0 <= k < a.len() && a[k] == row;
        assert((a + b)[k] == row);
    }
    if b.contains(row) {
        let k = choose|k: int| 0 <= k < b.len() && b[k] == row;
        assert((a + b)[a.len() + k] == row);
    }
}

/// A condition holds of two rows where it is true of the row that they make together;
/// without a condition any two rows match.
pub proof fn a_condition_is_judged_on_both_rows(
    e: Expr,
    left: Seq<Datum>,
    right: Seq<Datum>,
    fl: FloatModel,
)
    ensures
        condition_matcher(Some(e), left.len() as int, fl)(left, right) <==> keeps(
            e,
            left + right,
            fl,
        ) == Some(true),
        condition_matcher(None, left.len() as int, fl)(left, right),
{
    split_evaluation_agrees(e, left, right, fl);
}

/// A join by comparing has the pairs of rows of whose common row the condition is true,
/// and the rows that its kind fills up.
pub proof fn a_join_has_pairs_and_lone_rows(
    condition: Option<Seq<char>>,
    left: RelationModel,
    right: RelationModel,
    merged: SchemaModel,
    kind: JoinKind,
    row: Seq<Datum>,
    fl: FloatModel,
)
    requires
        loop_joined(condition, left, right, merged, kind, fl) is Ok,
    ensures
        ({
            let out = loop_joined(condition, left, right, merged, kind, fl)->Ok_0;
            let e = match condition {
                Some(c) => predicate_of(c, merged, fl),
                None => None,
            };
            let lc = left.schema.columns.len() as int;
            let rc = right.schema.columns.len() as int;
            let m = condition_matcher(e, lc, fl);
            &&& condition is Some ==> e is Some
            &&& out.schema == merged
            &&& out.rows.contains(row) <==> (exists|i: int, j: int|
                0 <= i < left.rows.len() && 0 <= j < right.rows.len() && is_pair(
                    #[trigger] left.rows[i],
                    #[trigger] right.rows[j],
                    m,
                    row,
                )) || unmatched(kind, left.rows, right.rows, m, lc, rc).contains(row)
        }),
{
    let e = match condition {
        Some(c) => predicate_of(c, merged, fl),
        None => None,
    };
    let lc = left.schema.columns.len() as int;
    let rc = right.schema.columns.len() as int;
    let m = condition_matcher(e, lc, fl);
    a_join_pairs_the_rows_that_match(left.rows, right.rows, m, left.rows.len() as int, row);
    let a = by_left(left.rows, right.rows, m, left.rows.len() as int);
    let b = unmatched(kind, left.rows, right.rows, m, lc, rc);
    let all = a + b;
    if all.contains(row) {
        let k = choose|k: int| 0 <= k < all.len() && all[k] == row;
        if k < a.len() {
            assert(a[k] == row);
        } else {
            assert(b[k - a.len()] == row);
        }
    }
    if a.contains(row) {
        let k = choose|k: int| 0 <= k < a.len() && a[k] == row;
        assert(all[k] == row);
    }
    if b.contains(row) {
        let k = choose|k: int| 0 <= k < b.len() && b[k] == row;
        assert(all[a.len() + k] == row);
    }
}

/// Joined rows have the left columns and then the right ones, each with its type, and named
/// with its table's name before it.
pub proof fn joined_columns_are_qualified(
    left: SchemaModel,
    left_prefix: Option<Seq<char>>,
    right: SchemaModel,
    right_prefix: Seq<char>,
    i: int,
)
    ensures
        ({
            let c = merged_schema(left, left_prefix, right, right_prefix).columns;
            let n = left.columns.len();
            &&& c.len() == n + right.columns.len()
            &&& 0 <= i < n ==> c[i].data_type == left.columns[i].data_type && c[i].nullable
                == left.columns[i].nullable && c[i].name == match left_prefix {
                Some(p) => p + seq!['.'] + left.columns[i].name,
                None => left.columns[i].name,
            }
            &&& n <= i < c.len() ==> c[i].data_type == right.columns[i - n].data_type
                && c[i].nullable == right.columns[i - n].nullable && c[i].name == right_prefix
                + seq!['.'] + right.columns[i - n].name
            &&& 0 <= i < c.len() ==> !c[i].primary_key
        }),
{
    reveal_strlit(".");
    assert("."@ =~= seq!['.']);
}

/// What follows the last dot of a name is its base; a name without a dot is its own.
pub proof fn a_base_name_follows_the_last_dot(prefix: Seq<char>, name: Seq<char>)
    requires
        !name.contains('.'),
    ensures
        base_name(name) == name,
        base_name(prefix + seq!['.'] + name) == name,
{
    lemma_no_dot(name, name.len() as int);
    assert(name.skip(0) =~= name);
    let s = prefix + seq!['.'] + name;
    let at = prefix.len() + 1;
    assert forall|k: int| at <= k < s.len() implies s[k] != '.' by {
        assert(s[k] == name[k - at]);
        assert(name.contains(name[k - at]));
    }
    lemma_last_dot(s, at as int, s.len() as int);
    assert(s.skip(at as int) =~= name);
}

proof fn lemma_no_dot(s: Seq<char>, n: int)
    requires
        0 <= n <= s.len(),
        !s.contains('.'),
    ensures
        base_start(s, n) == 0,
    decreases n,
{
    if n > 0 {
        assert(s.contains(s[n - 1]));
        lemma_no_dot(s, n - 1);
    }
}

proof fn lemma_last_dot(s: Seq<char>, at: int, n: int)
    requires
        1 <= at <= n <= s.len(),
        s[at - 1] == '.',
        forall|k: int| at <= k < n ==> s[k] != '.',
    ensures
        base_start(s, n) == at,
    decreases n - at,
{
    if n > at {
        lemma_last_dot(s, at, n - 1);
    }
}

proof fn lemma_base_from(columns: Seq<ColumnModel>, name: Seq<char>, from: int)
    requires
        0 <= from <= columns.len(),
    ensures
        match base_from(columns, name, from) {
            Some(i) => from <= i < columns.len() && base_name(columns[i].name) == name,
            None => forall|i: int|
                from <= i < columns.len() ==> base_name((#[trigger] columns[i]).name) != name,
        },
    decreases columns.len() - from,
{
    if from < columns.len() && base_name(columns[from].name) != name {
        lemma_base_from(columns, name, from + 1);
    }
}

/// `USING` a column asks that the left column of that base name equals the right column of
/// that name.
pub proof fn using_equates_the_named_column(
    column: Seq<char>,
    left: SchemaModel,
    left_prefix: Option<Seq<char>>,
    right: SchemaModel,
    right_prefix: Seq<char>,
    right_table: Seq<char>,
)
    ensures
        match using_condition(
            seq![column],
            left,
            left_prefix,
            right,
            right_prefix,
            right_table,
        ) {
            Ok(text) => exists|i: int|
                0 <= i < left.columns.len() && base_name((#[trigger] left.columns[i]).name)
                    == column && text == qualified(left_prefix, left.columns[i].name) + seq![
                    ' ', '=', ' ',
                ] + right_prefix + seq!['.'] + column,
            Err(_) => right.position(column) is None || forall|i: int|
                0 <= i < left.columns.len() ==> base_name((#[trigger] left.columns[i]).name)
                    != column,
        },
{
    lemma_base_from(left.columns, column, 0);
    column_place(right.columns, column, 0);
    reveal_strlit(".");
    reveal_strlit(" = ");
    assert("."@ =~= seq!['.']);
    assert(" = "@ =~= seq![' ', '=', ' ']);
    assert(seq![column][0] == column);
    match using_condition(seq![column], left, left_prefix, right, right_prefix, right_table) {
        Ok(text) => {
            let i = base_from(left.columns, column, 0)->0;
            let q = qualified(left_prefix, left.columns[i].name);
            assert(text =~= q + seq![' ', '=', ' '] + right_prefix + seq!['.'] + column);
        },
        Err(_) => {},
    }
}

proof fn lemma_shared(left: Seq<ColumnModel>, right: SchemaModel, n: int)
    requires
        0 <= n <= left.len(),
    ensures
        forall|k: int|
            0 <= k < shared_columns(left, right, n).len() ==> {
                let p = #[trigger] shared_columns(left, right, n)[k];
                0 <= p.0 < n && right.position(base_name(left[p.0].name)) == Some(p.1)
            },
        shared_columns(left, right, n).len() == left.take(n).filter(
            |c: ColumnModel| right.position(base_name(c.name)) is Some,
        ).len(),
    decreases n,
{
    reveal(Seq::filter);
    if n > 0 {
        lemma_shared(left, right, n - 1);
        assert(left.take(n).drop_last() =~= left.take(n - 1));
        assert(left.take(n).last() == left[n - 1]);
    } else {
        assert(left.take(0) =~= Seq::empty());
    }
}

/// The columns on the left whose base name is a column on the right.
pub open spec fn common(left: SchemaModel, right: SchemaModel) -> nat {
    left.columns.filter(|c: ColumnModel| right.position(base_name(c.name)) is Some).len()
}

/// A natural join without a common column has no condition, with one that the two columns
/// of that name are equal, and with more it is refused.
pub proof fn a_natural_join_equates_the_common_column(
    left: SchemaModel,
    left_prefix: Option<Seq<char>>,
    right: SchemaModel,
    right_prefix: Seq<char>,
)
    ensures
        ({
            let n = common(left, right);
            match natural_condition(left, left_prefix, right, right_prefix) {
                Ok(None) => n == 0,
                Ok(Some(text)) => n == 1 && exists|i: int|
                    0 <= i < left.columns.len() && right.position(
                        base_name((#[trigger] left.columns[i]).name),
                    ) is Some && text == qualified(left_prefix, left.columns[i].name) + seq![
                        ' ', '=', ' ',
                    ] + right_prefix + seq!['.'] + base_name(left.columns[i].name),
                Err(_) => n > 1,
            }
        }),
{
    let n = left.columns.len() as int;
    lemma_shared(left.columns, right, n);
    assert(left.columns.take(n) =~= left.columns);
    reveal_strlit(".");
    reveal_strlit(" = ");
    assert("."@ =~= seq!['.']);
    assert(" = "@ =~= seq![' ', '=', ' ']);
    let shared = shared_columns(left.columns, right, n);
    if shared.len() == 1 {
        let p = shared[0];
        column_place(right.columns, base_name(left.columns[p.0].name), 0);
        let q = qualified(left_prefix, left.columns[p.0].name);
        let text = natural_condition(left, left_prefix, right, right_prefix)->Ok_0->0;
        assert(text =~= q + seq![' ', '=', ' '] + right_prefix + seq!['.'] + base_name(
            left.columns[p.0].name,
        ));
    }
}

/// A join without a condition is one by comparing in which any two rows match.
pub proof fn a_join_without_a_condition_pairs_all_rows(
    left: RelationModel,
    left_prefix: Option<Seq<char>>,
    right: RelationModel,
    right_prefix: Seq<char>,
    right_table: Seq<char>,
    kind: JoinKind,
    fl: FloatModel,
    i: int,
    j: int,
)
    requires
        left.schema.columns.len() + right.schema.columns.len() < u32::MAX,
        0 <= i < left.rows.len(),
        0 <= j < right.rows.len(),
    ensures
        match joined(
            left,
            left_prefix,
            right,
            right_prefix,
            right_table,
            JoinText::On(None),
            kind,
            fl,
        ) {
            Ok(out) => out.rows.contains(left.rows[i] + right.rows[j]),
            Err(_) => false,
        },
{
    let merged = merged_schema(left.schema, left_prefix, right.schema, right_prefix);
    let row = left.rows[i] + right.rows[j];
    a_join_has_pairs_and_lone_rows(None, left, right, merged, kind, row, fl);
    let m = condition_matcher(None, left.schema.columns.len() as int, fl);
    assert(is_pair(left.rows[i], right.rows[j], m, row));
}

} // verus!
