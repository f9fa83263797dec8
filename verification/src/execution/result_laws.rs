//! What the steps of a query leave of the rows that they are given.

use vstd::prelude::*;
use crate::error::Fault;
use crate::execution::aggregate::{aggregate_call, aggregated, Call};
use crate::execution::catalog::{column_place, SchemaModel};
use crate::execution::grouping::{
    aggregated_relation, call_values, group_from, group_place, grouped, groups_of, having_of,
    keeps_group, output_from, outputs_from, same_key, text_from, GroupModel, HavingModel,
};
use crate::execution::operators::{datum_eq, Datum};
use crate::execution::relation::{
    filtered, first_occurrences, kept_rows, picked, projected, resolved, window, RelationModel,
};
use crate::execution::row_codec::predicate::{
    compared, keeps, Comparison, Expr, Operand, Tri,
};
use crate::execution::row_codec::predicate_laws::judged;
use crate::float::FloatModel;

verus! {

/// Of rows put one after the other, a filter keeps what it keeps of the first and then what
/// it keeps of the others; and of one row, that row where the predicate is true of it.
pub proof fn a_filter_keeps_rows_in_their_order(
    e: Expr,
    a: Seq<Seq<Datum>>,
    b: Seq<Seq<Datum>>,
    row: Seq<Datum>,
    fl: FloatModel,
)
    ensures
        kept_rows(e, a + b, fl) == kept_rows(e, a, fl) + kept_rows(e, b, fl),
        keeps(e, row, fl) == Some(true) ==> kept_rows(e, seq![row], fl) == seq![row],
        keeps(e, row, fl) != Some(true) ==> kept_rows(e, seq![row], fl).len() == 0,
{
    let p = |r: Seq<Datum>| keeps(e, r, fl) == Some(true);
    Seq::filter_distributes_over_add(a, b, p);
    reveal(Seq::filter);
    assert(seq![row].drop_last() =~= Seq::empty());
    assert(seq![row].drop_last().filter(p) =~= Seq::empty());
    assert(kept_rows(e, seq![row], fl) =~= if p(row) { seq![row] } else { Seq::empty() });
}

/// A `WHERE` clause keeps a row exactly where it is judged true of it.
pub proof fn a_where_clause_keeps_what_it_is_true_of(
    input: RelationModel,
    predicate: Seq<char>,
    row: Seq<Datum>,
    fl: FloatModel,
)
    ensures
        match filtered(input, predicate, fl) {
            Ok(out) => {
                &&& out.schema == input.schema
                &&& out.rows.contains(row) <==> input.rows.contains(row) && judged(
                    predicate,
                    input.schema,
                    row,
                    fl,
                ) == Some(true)
                &&& out.rows.len() <= input.rows.len()
            },
            Err(_) => judged(predicate, input.schema, row, fl) is None,
        },
{
    match crate::execution::row_codec::predicate::predicate_of(predicate, input.schema, fl) {
        Some(e) => {
            let p = |r: Seq<Datum>| keeps(e, r, fl) == Some(true);
            input.rows.lemma_filter_len(p);
            let out = input.rows.filter(p);
            if input.rows.contains(row) && p(row) {
                let i = choose|i: int| 0 <= i < input.rows.len() && input.rows[i] == row;
                input.rows.lemma_filter_contains(p, i);
            }
            if out.contains(row) {
                let i = choose|i: int| 0 <= i < out.len() && out[i] == row;
                input.rows.lemma_filter_pred(p, i);
                input.rows.lemma_filter_contains_rev(p, row);
            }
        },
        None => {},
    }
}

/// A window starts after `offset` rows and has at most `limit` of those that follow, in
/// their order.
pub proof fn a_window_is_a_stretch_of_rows(
    input: Seq<Seq<Datum>>,
    offset: int,
    limit: int,
    i: int,
)
    requires
        0 <= offset,
        0 <= limit,
    ensures
        ({
            let out = window(input, offset, limit);
            &&& out.len() <= limit
            &&& offset + limit <= input.len() ==> out.len() == limit
            &&& offset <= input.len() < offset + limit ==> out.len() == input.len() - offset
            &&& offset >= input.len() ==> out.len() == 0
            &&& 0 <= i < out.len() ==> out[i] == input[offset + i]
        }),
{
}

/// What is left of more rows without repetitions begins with what is left of fewer; a row
/// that came before adds nothing, and a new one stands at the end.
pub proof fn the_first_of_equal_rows_stays(input: Seq<Seq<Datum>>, row: Seq<Datum>)
    ensures
        ({
            let before = first_occurrences(input, input.len() as int);
            let after = first_occurrences(input.push(row), input.push(row).len() as int);
            &&& input.contains(row) ==> after == before
            &&& !input.contains(row) ==> after == before.push(row)
        }),
{
    let n = input.len() as int;
    lemma_first_occurrences_of_more(input, row, n);
    crate::execution::relation::distinct_rows_are_distinct(input, n);
    assert(input.take(n) =~= input);
    assert(input.push(row)[n] == row);
    let before = first_occurrences(input, n);
    assert(before.contains(row) <==> input.take(n).contains(row));
}

proof fn lemma_first_occurrences_of_more(input: Seq<Seq<Datum>>, row: Seq<Datum>, n: int)
    requires
        0 <= n <= input.len(),
    ensures
        first_occurrences(input.push(row), n) == first_occurrences(input, n),
    decreases n,
{
    if n > 0 {
        lemma_first_occurrences_of_more(input, row, n - 1);
        assert(input.push(row)[n - 1] == input[n - 1]);
    }
}

proof fn lemma_resolved(
    names: Seq<Seq<char>>,
    i: int,
    schema: SchemaModel,
    before: Seq<char>,
    after: Seq<char>,
)
    requires
        0 <= i <= names.len(),
    ensures
        match resolved(names, i, schema, before, after) {
            Ok(at) => at.len() == names.len() - i && forall|k: int|
                i <= k < names.len() ==> schema.position(#[trigger] names[k]) == Some(at[k - i]),
            Err(_) => exists|k: int|
                i <= k < names.len() && schema.position(#[trigger] names[k]) is None,
        },
    decreases names.len() - i,
{
    if i < names.len() {
        lemma_resolved(names, i + 1, schema, before, after);
        if schema.position(names[i]) is Some {
            match resolved(names, i + 1, schema, before, after) {
                Ok(rest) => {
                    let at = seq![schema.position(names[i])->0] + rest;
                    assert forall|k: int| i <= k < names.len() implies schema.position(
                        #[trigger] names[k],
                    ) == Some(at[k - i]) by {
                        if k > i {
                            assert(at[k - i] == rest[k - i - 1]);
                        }
                    }
                },
                Err(_) => {},
            }
        }
    }
}

/// A projection has the columns that it names, in that order: every row of it holds the
/// values that the row it comes from has under those names.
pub proof fn a_projection_has_the_named_columns(
    input: RelationModel,
    names: Seq<Seq<char>>,
    i: int,
    k: int,
)
    requires
        projected(input, names) is Ok,
        0 <= i < input.rows.len(),
        0 <= k < names.len(),
    ensures
        ({
            let out = projected(input, names)->Ok_0;
            &&& out.rows.len() == input.rows.len()
            &&& out.rows[i].len() == names.len()
            &&& out.schema.columns.len() == names.len()
            &&& input.schema.position(names[k]) matches Some(p) && 0 <= p < input.rows[i].len()
                && input.schema.columns[p].name == names[k] && out.rows[i][k] == input.rows[i][p]
                && out.schema.columns[k] == input.schema.columns[p]
        }),
{
    lemma_resolved(names, 0, input.schema, "Unknown column '"@, "' in SELECT list"@);
    column_place(input.schema.columns, names[k], 0);
    let at = resolved(names, 0, input.schema, "Unknown column '"@, "' in SELECT list"@)->Ok_0;
    assert(input.schema.position(names[k]) == Some(at[k]));
    assert(crate::execution::relation::within(input.rows[i], at));
    assert(0 <= at[k] < input.rows[i].len());
}

/// A projection fails only where a name is no column, or a row is too short.
pub proof fn a_projection_of_known_columns_succeeds(input: RelationModel, names: Seq<Seq<char>>)
    requires
        forall|k: int| 0 <= k < names.len() ==> input.schema.position(#[trigger] names[k]) is Some,
        forall|i: int| 0 <= i < input.rows.len() ==> (#[trigger] input.rows[i]).len()
            == input.schema.columns.len(),
    ensures
        projected(input, names) is Ok,
{
    lemma_resolved(names, 0, input.schema, "Unknown column '"@, "' in SELECT list"@);
    match resolved(names, 0, input.schema, "Unknown column '"@, "' in SELECT list"@) {
        Ok(at) => {
            assert forall|i: int| 0 <= i < input.rows.len() implies
                crate::execution::relation::within(#[trigger] input.rows[i], at) by {
                assert forall|k: int| 0 <= k < at.len() implies 0 <= #[trigger] at[k]
                    < input.rows[i].len() by {
                    assert(input.schema.position(names[k]) == Some(at[k]));
                    column_place(input.schema.columns, names[k], 0);
                }
            }
        },
        Err(_) => {},
    }
}

// ---- groups ---------------------------------------------------------------------

proof fn lemma_same_key(a: Seq<Datum>, b: Seq<Datum>, c: Seq<Datum>)
    ensures
        same_key(a, b) ==> same_key(b, a),
        same_key(a, b) && same_key(b, c) ==> same_key(a, c),
        same_key(a, b) ==> same_key(a, a),
{
    if same_key(a, b) {
        assert forall|i: int| 0 <= i < b.len() implies datum_eq(#[trigger] b[i], a[i]) by {
            assert(datum_eq(a[i], b[i]));
        }
        assert forall|i: int| 0 <= i < a.len() implies datum_eq(#[trigger] a[i], a[i]) by {
            assert(datum_eq(a[i], b[i]));
        }
        if same_key(b, c) {
            assert forall|i: int| 0 <= i < a.len() implies datum_eq(#[trigger] a[i], c[i]) by {
                assert(datum_eq(a[i], b[i]) && datum_eq(b[i], c[i]));
            }
        }
    }
}

/// The rows of a group are those of the input whose values in the grouped columns are the
/// group's, in their order; no two groups have the same values, and every row is in a
/// group. A group whose values are not equal to themselves, as what is not a number, is
/// left out of the first.
pub proof fn groups_hold_the_rows_of_their_key(input: Seq<Seq<Datum>>, at: Seq<int>, n: int)
    requires
        0 <= n <= input.len(),
    ensures
        ({
            let groups = grouped(input, at, n);
            &&& forall|g: int|
                0 <= g < groups.len() && same_key(groups[g].key, groups[g].key) ==> (
                #[trigger] groups[g]).rows == input.take(n).filter(
                    |row: Seq<Datum>| same_key(groups[g].key, picked(row, at)),
                )
            &&& forall|g: int, h: int|
                0 <= g < h < groups.len() ==> !same_key(
                    (#[trigger] groups[g]).key,
                    (#[trigger] groups[h]).key,
                )
            &&& forall|i: int|
                0 <= i < n ==> exists|g: int|
                    0 <= g < groups.len() && (#[trigger] groups[g]).rows.contains(
                        #[trigger] input[i],
                    )
        }),
    decreases n,
{
    reveal(Seq::filter);
    let groups = grouped(input, at, n);
    if n > 0 {
        groups_hold_the_rows_of_their_key(input, at, n - 1);
        let old = grouped(input, at, n - 1);
        let row = input[n - 1];
        let key = picked(row, at);
        assert(input.take(n).drop_last() =~= input.take(n - 1));
        assert(input.take(n).last() == row);
        group_place(old, key, 0);
        let found = group_from(old, key, 0);
        assert forall|g: int|
            0 <= g < groups.len() && same_key(groups[g].key, groups[g].key) implies (
        #[trigger] groups[g]).rows == input.take(n).filter(
            |row: Seq<Datum>| same_key(groups[g].key, picked(row, at)),
        ) by {
            let k = groups[g].key;
            let p = |r: Seq<Datum>| same_key(k, picked(r, at));
            if g < old.len() {
                assert(old[g].key == k);
                let q = |r: Seq<Datum>| same_key(old[g].key, picked(r, at));
                assert(p =~= q);
                assert(old[g].rows == input.take(n - 1).filter(q));
                if found == Some(g) {
                    assert(p(row));
                } else {
                    if p(row) {
                        if found is Some {
                            let f = found->0;
                            lemma_same_key(k, key, old[f].key);
                            lemma_same_key(old[f].key, key, k);
                            assert(same_key(old[g].key, old[f].key) || same_key(
                                old[f].key,
                                old[g].key,
                            ));
                            lemma_same_key(old[g].key, old[f].key, key);
                            lemma_same_key(old[f].key, old[g].key, key);
                            if g < f {
                                assert(same_key(old[g].key, old[f].key));
                            } else {
                                assert(same_key(old[f].key, old[g].key));
                            }
                        } else {
                            assert(!same_key(old[g].key, key));
                        }
                    }
                }
            } else {
                assert(k == key);
                assert(found is None);
                let before = input.take(n - 1).filter(p);
                if before.len() > 0 {
                    input.take(n - 1).lemma_filter_pred(p, 0);
                    input.take(n - 1).lemma_filter_contains_rev(p, before[0]);
                    let r = before[0];
                    let earlier = input.take(n - 1);
                    let i = choose|i: int| 0 <= i < earlier.len() && earlier[i] == r;
                    assert(input[i] == r);
                    lemma_key_is_known(input, at, n - 1, i);
                    let h = choose|h: int|
                        0 <= h < old.len() && (same_key((#[trigger] old[h]).key, picked(r, at))
                            || old[h].key == picked(r, at));
                    lemma_same_key(key, picked(r, at), key);
                    lemma_same_key(picked(r, at), key, key);
                    lemma_same_key(old[h].key, picked(r, at), key);
                    assert(same_key(old[h].key, key));
                }
                assert(input.take(n).filter(p) =~= seq![row]);
            }
        }
        assert forall|i: int| 0 <= i < n implies exists|g: int|
            0 <= g < groups.len() && (#[trigger] groups[g]).rows.contains(#[trigger] input[i]) by {
            if i < n - 1 {
                let g = choose|g: int|
                    0 <= g < old.len() && (#[trigger] old[g]).rows.contains(input[i]);
                let r = input[i];
                let k = choose|k: int| 0 <= k < old[g].rows.len() && old[g].rows[k] == r;
                assert(groups[g].rows[k] == r);
                assert(groups[g].rows.contains(r));
            } else {
                let g = if found is Some { found->0 } else { old.len() as int };
                assert(groups[g].rows.last() == row);
                assert(groups[g].rows.contains(row));
            }
        }
        assert forall|g: int, h: int| 0 <= g < h < groups.len() implies !same_key(
            (#[trigger] groups[g]).key,
            (#[trigger] groups[h]).key,
        ) by {
            assert(g < old.len() && groups[g].key == old[g].key);
            if h < old.len() {
                assert(groups[h].key == old[h].key);
            }
        }
    } else {
        assert(groups =~= Seq::empty());
    }
}

proof fn lemma_key_is_known(input: Seq<Seq<Datum>>, at: Seq<int>, n: int, i: int)
    requires
        0 <= i < n <= input.len(),
    ensures
        exists|g: int|
            0 <= g < grouped(input, at, n).len() && (same_key(
                (#[trigger] grouped(input, at, n)[g]).key,
                picked(input[i], at),
            ) || grouped(input, at, n)[g].key == picked(input[i], at)),
    decreases n,
{
    let old = grouped(input, at, n - 1);
    let groups = grouped(input, at, n);
    let key = picked(input[n - 1], at);
    group_place(old, key, 0);
    if i < n - 1 {
        lemma_key_is_known(input, at, n - 1, i);
        let g = choose|g: int|
            0 <= g < old.len() && (same_key((#[trigger] old[g]).key, picked(input[i], at))
                || old[g].key == picked(input[i], at));
        assert(groups[g].key == old[g].key);
    } else {
        match group_from(old, key, 0) {
            Some(g) => {
                assert(groups[g].key == old[g].key);
            },
            None => {
                assert(groups[old.len() as int].key == key);
            },
        }
    }
}

/// The groups that a `HAVING` clause keeps.
pub open spec fn kept_groups(
    groups: Seq<GroupModel>,
    having: Option<HavingModel>,
    schema: SchemaModel,
    fl: FloatModel,
) -> Seq<GroupModel> {
    groups.filter(|g: GroupModel| keeps_group(having, g, schema, fl))
}

/// The answer to a grouped query has a row for every group of which the `HAVING` clause is
/// true, in the order of the groups, and no other.
pub proof fn there_is_a_row_for_every_kept_group(
    groups: Seq<GroupModel>,
    columns: Seq<Seq<char>>,
    group_by: Seq<Seq<char>>,
    having: Option<HavingModel>,
    schema: SchemaModel,
    fl: FloatModel,
)
    ensures
        match outputs_from(groups, 0, Seq::empty(), columns, group_by, having, schema, fl) {
            Ok(out) => {
                let kept = kept_groups(groups, having, schema, fl);
                &&& out.len() == kept.len()
                &&& forall|i: int|
                    0 <= i < kept.len() ==> output_from(
                        columns,
                        0,
                        Seq::empty(),
                        group_by,
                        #[trigger] kept[i],
                        schema,
                        fl,
                    ) == Ok::<Seq<Datum>, Fault>(out[i])
            },
            Err(_) => true,
        },
{
    assert(groups.skip(0) =~= groups);
    lemma_outputs(groups, 0, Seq::empty(), columns, group_by, having, schema, fl);
}

proof fn lemma_outputs(
    groups: Seq<GroupModel>,
    from: int,
    done: Seq<Seq<Datum>>,
    columns: Seq<Seq<char>>,
    group_by: Seq<Seq<char>>,
    having: Option<HavingModel>,
    schema: SchemaModel,
    fl: FloatModel,
)
    requires
        0 <= from <= groups.len(),
    ensures
        match outputs_from(groups, from, done, columns, group_by, having, schema, fl) {
            Ok(out) => {
                let kept = kept_groups(groups.skip(from), having, schema, fl);
                &&& out.len() == done.len() + kept.len()
                &&& forall|i: int| 0 <= i < done.len() ==> out[i] == done[i]
                &&& forall|i: int|
                    0 <= i < kept.len() ==> output_from(
                        columns,
                        0,
                        Seq::empty(),
                        group_by,
                        #[trigger] kept[i],
                        schema,
                        fl,
                    ) == Ok::<Seq<Datum>, Fault>(out[done.len() + i])
            },
            Err(_) => true,
        },
    decreases groups.len() - from,
{
    let p = |g: GroupModel| keeps_group(having, g, schema, fl);
    if from < groups.len() {
        let rest = groups.skip(from + 1);
        let kept = kept_groups(groups.skip(from), having, schema, fl);
        let later = kept_groups(rest, having, schema, fl);
        assert(groups.skip(from) =~= seq![groups[from]] + rest);
        Seq::filter_distributes_over_add(seq![groups[from]], rest, p);
        reveal(Seq::filter);
        assert(seq![groups[from]].drop_last() =~= Seq::empty());
        assert(seq![groups[from]].drop_last().filter(p) =~= Seq::empty());
        if p(groups[from]) {
            assert(kept =~= seq![groups[from]] + later);
            match output_from(columns, 0, Seq::empty(), group_by, groups[from], schema, fl) {
                Ok(row) => {
                    lemma_outputs(
                        groups,
                        from + 1,
                        done.push(row),
                        columns,
                        group_by,
                        having,
                        schema,
                        fl,
                    );
                    if let Ok(out) = outputs_from(
                        groups,
                        from,
                        done,
                        columns,
                        group_by,
                        having,
                        schema,
                        fl,
                    ) {
                        assert(out[done.len() as int] == done.push(row)[done.len() as int]);
                        assert forall|i: int| 0 <= i < done.len() implies out[i] == done[i] by {
                            assert(out[i] == done.push(row)[i]);
                        }
                        assert forall|i: int| 0 <= i < kept.len() implies output_from(
                            columns,
                            0,
                            Seq::empty(),
                            group_by,
                            #[trigger] kept[i],
                            schema,
                            fl,
                        ) == Ok::<Seq<Datum>, Fault>(out[done.len() + i]) by {
                            if i > 0 {
                                assert(kept[i] == later[i - 1]);
                                assert(out[done.push(row).len() + (i - 1)] == out[done.len() + i]);
                            }
                        }
                    }
                },
                Err(_) => {},
            }
        } else {
            assert(kept =~= later);
            lemma_outputs(groups, from + 1, done, columns, group_by, having, schema, fl);
        }
    } else {
        assert(groups.skip(from) =~= Seq::empty());
        reveal(Seq::filter);
    }
}

/// In a row of a grouped answer stands, under a column that is grouped by, the group's
/// value there, and under an aggregate call what the call is over the group's rows.
pub proof fn a_grouped_row_holds_keys_and_aggregates(
    columns: Seq<Seq<char>>,
    group_by: Seq<Seq<char>>,
    group: GroupModel,
    schema: SchemaModel,
    fl: FloatModel,
    k: int,
)
    requires
        output_from(columns, 0, Seq::empty(), group_by, group, schema, fl) is Ok,
        0 <= k < columns.len(),
    ensures
        ({
            let row = output_from(columns, 0, Seq::empty(), group_by, group, schema, fl)->Ok_0;
            &&& row.len() == columns.len()
            &&& group_by.contains(columns[k]) ==> exists|g: int|
                0 <= g < group_by.len() && #[trigger] group_by[g] == columns[k] && row[k]
                    == group.key[g]
            &&& !group_by.contains(columns[k]) ==> aggregate_call(columns[k]) is Some && row[k]
                == aggregated(aggregate_call(columns[k])->0, schema, group.rows, fl)
        }),
{
    lemma_output(columns, 0, Seq::empty(), group_by, group, schema, fl, k);
    lemma_text_from(group_by, columns[k], 0);
}

proof fn lemma_text_from(v: Seq<Seq<char>>, t: Seq<char>, from: int)
    requires
        0 <= from <= v.len(),
    ensures
        match text_from(v, t, from) {
            Some(i) => from <= i < v.len() && v[i] == t,
            None => forall|i: int| from <= i < v.len() ==> #[trigger] v[i] != t,
        },
    decreases v.len() - from,
{
    if from < v.len() && v[from] != t {
        lemma_text_from(v, t, from + 1);
    }
}

proof fn lemma_output(
    columns: Seq<Seq<char>>,
    i: int,
    done: Seq<Datum>,
    group_by: Seq<Seq<char>>,
    group: GroupModel,
    schema: SchemaModel,
    fl: FloatModel,
    k: int,
)
    requires
        0 <= i <= columns.len(),
        done.len() == i,
        0 <= k < columns.len(),
        output_from(columns, i, done, group_by, group, schema, fl) is Ok,
    ensures
        ({
            let row = output_from(columns, i, done, group_by, group, schema, fl)->Ok_0;
            &&& row.len() == columns.len()
            &&& forall|j: int| 0 <= j < i ==> row[j] == done[j]
            &&& i <= k ==> match text_from(group_by, columns[k], 0) {
                Some(g) => row[k] == group.key[g],
                None => aggregate_call(columns[k]) matches Some(call) && row[k] == aggregated(
                    call,
                    schema,
                    group.rows,
                    fl,
                ),
            }
        }),
    decreases columns.len() - i,
{
    if i < columns.len() {
        let d = crate::execution::grouping::output_value(
            columns[i],
            group_by,
            group,
            schema,
            fl,
        )->Ok_0;
        lemma_output(columns, i + 1, done.push(d), group_by, group, schema, fl, k);
        let row = output_from(columns, i, done, group_by, group, schema, fl)->Ok_0;
        assert(row[i] == done.push(d)[i]);
        assert forall|j: int| 0 <= j < i implies row[j] == done[j] by {
            assert(row[j] == done.push(d)[j]);
        }
    }
}

/// Grouping goes by the values under the named columns; without names all rows are one
/// group. The answer has the rows of the groups that are kept.
pub proof fn an_aggregation_groups_by_the_named_columns(
    input: RelationModel,
    columns: Seq<Seq<char>>,
    group_by: Seq<Seq<char>>,
    having: Option<Seq<char>>,
    fl: FloatModel,
    i: int,
    g: int,
)
    requires
        aggregated_relation(input, columns, group_by, having, fl) is Ok,
    ensures
        ({
            let out = aggregated_relation(input, columns, group_by, having, fl)->Ok_0;
            let at = resolved(group_by, 0, input.schema, "Unknown GROUP BY column '"@, "'"@)->Ok_0;
            let groups = groups_of(input.rows, at);
            let h = match having {
                Some(text) => Some(having_of(text, input.schema, group_by, fl)->Ok_0),
                None => None,
            };
            let kept = kept_groups(groups, h, input.schema, fl);
            &&& at.len() == group_by.len()
            &&& group_by.len() == 0 ==> groups.len() == 1 && groups[0].rows == input.rows
            &&& group_by.len() > 0 ==> groups == grouped(input.rows, at, input.rows.len() as int)
            &&& 0 <= g < group_by.len() && 0 <= i < input.rows.len() ==> input.schema.position(
                group_by[g],
            ) == Some(at[g]) && picked(input.rows[i], at)[g] == input.rows[i][at[g]]
            &&& out.rows.len() == kept.len()
            &&& 0 <= i < kept.len() ==> output_from(
                columns,
                0,
                Seq::empty(),
                group_by,
                kept[i],
                input.schema,
                fl,
            ) == Ok::<Seq<Datum>, Fault>(out.rows[i])
        }),
{
    lemma_resolved(group_by, 0, input.schema, "Unknown GROUP BY column '"@, "'"@);
    let at = resolved(group_by, 0, input.schema, "Unknown GROUP BY column '"@, "'"@)->Ok_0;
    let h = match having {
        Some(text) => Some(having_of(text, input.schema, group_by, fl)->Ok_0),
        None => None,
    };
    there_is_a_row_for_every_kept_group(
        groups_of(input.rows, at),
        columns,
        group_by,
        h,
        input.schema,
        fl,
    );
    if 0 <= g < group_by.len() {
        assert(input.schema.position(group_by[g]) == Some(at[g]));
    }
}

/// A `HAVING` clause that compares a key with a literal compares the group's value, and one
/// that compares an aggregate call what the call is over the group's rows. Without a clause
/// every group is kept.
pub proof fn having_compares_keys_and_aggregates(
    calls: Seq<Call>,
    group: GroupModel,
    schema: SchemaModel,
    k: int,
    j: int,
    op: Comparison,
    d: Datum,
    fl: FloatModel,
)
    requires
        0 <= k < group.key.len(),
        0 <= j < calls.len(),
    ensures
        keeps_group(None, group, schema, fl),
        keeps_group(
            Some(
                HavingModel {
                    predicate: Expr::Comparison(k, op, Operand::Literal(d)),
                    calls,
                },
            ),
            group,
            schema,
            fl,
        ) <==> compared(group.key[k], op, d, fl) == Some(Tri::True),
        keeps_group(
            Some(
                HavingModel {
                    predicate: Expr::Comparison(group.key.len() + j, op, Operand::Literal(d)),
                    calls,
                },
            ),
            group,
            schema,
            fl,
        ) <==> compared(aggregated(calls[j], schema, group.rows, fl), op, d, fl) == Some(
            Tri::True,
        ),
{
    let values = call_values(calls, schema, group.rows, fl);
    let row = group.key + values;
    assert(row[k] == group.key[k]);
    assert(row[group.key.len() + j] == values[j]);
}

} // verus!
