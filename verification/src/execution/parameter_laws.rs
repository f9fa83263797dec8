//! Which parameter stands for which placeholder, and which statements are accepted.

use vstd::prelude::*;
use crate::error::Fault;
use crate::execution::catalog::{table_named, SchemaModel};
use crate::execution::operators::Datum;
use crate::execution::prepared::{
    bound_kind, bound_list, bound_rows, bound_statement, right_sides, PreparedModel,
};
use crate::execution::prepared_laws::{asked, questions};
use crate::execution::row_codec::literals::literal_text;
use crate::execution::row_codec::placeholders::{
    field_substituted, placeholder, spaced, substituted, substituted_from, PlaceholderKind,
};
use crate::execution::row_codec::tokens::tokens_of;
use crate::float::FloatModel;
use crate::sql::binder::{
    arity_checked, bound, column_checked, columns_checked, simple_identifier,
};
use crate::sql::parser::{DeleteModel, InsertModel, SelectModel, StatementModel, UpdateModel};
use crate::text::{all_digits, alphanumeric, number};

verus! {

/// A question mark is a placeholder, and so is a dollar sign with a number from one on.
/// Nothing else is.
pub proof fn placeholders_are_read_as_written(token: Seq<char>, s: Seq<char>)
    ensures
        (placeholder(token) == Some(PlaceholderKind::Positional)) <==> token == seq!['?'],
        s.len() > 0 && all_digits(s) && 1 <= number(s) <= usize::MAX ==> placeholder(
            seq!['$'] + s,
        ) == Some(PlaceholderKind::Indexed(number(s) as usize)),
        placeholder(token) matches Some(PlaceholderKind::Indexed(n)) ==> token.len() > 1
            && token[0] == '$' && all_digits(token.skip(1)) && number(token.skip(1)) == n && n >= 1,
{
    reveal_strlit("?");
    assert("?"@ =~= seq!['?']);
    let t = seq!['$'] + s;
    assert(t.skip(1) =~= s);
    assert(t[0] == '$');
    if t == seq!['?'] {
        assert(t[0] == '?');
    }
}

/// A numbered placeholder becomes the parameter of that number, counted from one, and a
/// question mark the next parameter; everything else stays as it is.
pub proof fn a_placeholder_becomes_its_parameter(
    token: Seq<char>,
    params: Seq<Datum>,
    next: int,
    fl: FloatModel,
)
    requires
        0 <= next,
    ensures
        ({
            let s = substituted(token, params, next, fl);
            match placeholder(token) {
                Some(PlaceholderKind::Indexed(n)) => {
                    &&& s.next == next
                    &&& 1 <= n <= params.len() ==> s.text == Ok::<Seq<char>, Fault>(
                        literal_text(params[n - 1], fl),
                    )
                    &&& n > params.len() ==> s.text is Err
                },
                Some(PlaceholderKind::Positional) => {
                    &&& next < params.len() ==> s.next == next + 1 && s.text == Ok::<
                        Seq<char>,
                        Fault,
                    >(literal_text(params[next], fl))
                    &&& next >= params.len() ==> s.text is Err
                },
                None => s.next == next && s.text == Ok::<Seq<char>, Fault>(token),
            }
        }),
{
}

/// The word that stands for a word of a field, of which so many question marks come before.
pub open spec fn filled(
    token: Seq<char>,
    before: int,
    params: Seq<Datum>,
    fl: FloatModel,
) -> Seq<char> {
    match placeholder(token) {
        Some(PlaceholderKind::Indexed(n)) => literal_text(params[n - 1], fl),
        Some(PlaceholderKind::Positional) => literal_text(params[before], fl),
        None => token,
    }
}

proof fn lemma_questions(tokens: Seq<Seq<char>>, k: int)
    requires
        0 <= k < tokens.len(),
    ensures
        questions(tokens.take(k + 1), 0) == questions(tokens.take(k), 0) + if placeholder(
            tokens[k],
        ) == Some(PlaceholderKind::Positional) {
            1int
        } else {
            0
        },
{
    lemma_questions_of_more(tokens.take(k), tokens[k], 0);
    assert(tokens.take(k + 1) =~= tokens.take(k).push(tokens[k]));
}

proof fn lemma_questions_of_more(tokens: Seq<Seq<char>>, t: Seq<char>, i: int)
    requires
        0 <= i <= tokens.len(),
    ensures
        questions(tokens.push(t), i) == questions(tokens, i) + if placeholder(t) == Some(
            PlaceholderKind::Positional,
        ) {
            1int
        } else {
            0
        },
    decreases tokens.len() - i,
{
    let more = tokens.push(t);
    if i < tokens.len() {
        assert(more[i] == tokens[i]);
        lemma_questions_of_more(tokens, t, i + 1);
    } else {
        assert(more[i] == t);
        assert(questions(more, i + 1) == 0);
        assert(questions(tokens, i) == 0);
    }
}

proof fn lemma_filled(
    tokens: Seq<Seq<char>>,
    i: int,
    done: Seq<Seq<char>>,
    params: Seq<Datum>,
    first: int,
    next: int,
    fl: FloatModel,
)
    requires
        0 <= i <= tokens.len(),
        done.len() == i,
        next == first + questions(tokens.take(i), 0),
        forall|k: int|
            0 <= k < i ==> #[trigger] done[k] == filled(
                tokens[k],
                first + questions(tokens.take(k), 0),
                params,
                fl,
            ),
        substituted_from(tokens, i, done, params, next, fl).text is Ok,
    ensures
        substituted_from(tokens, i, done, params, next, fl).text == Ok::<Seq<char>, Fault>(
            spaced(
                Seq::new(
                    tokens.len(),
                    |k: int|
                        filled(tokens[k], first + questions(tokens.take(k), 0), params, fl),
                ),
            ),
        ),
        substituted_from(tokens, i, done, params, next, fl).next == first + questions(tokens, 0),
    decreases tokens.len() - i,
{
    if i < tokens.len() {
        let s = substituted(tokens[i], params, next, fl);
        lemma_questions(tokens, i);
        let more = done.push(s.text->Ok_0);
        assert forall|k: int| 0 <= k < i + 1 implies #[trigger] more[k] == filled(
            tokens[k],
            first + questions(tokens.take(k), 0),
            params,
            fl,
        ) by {
            if k < i {
                assert(more[k] == done[k]);
            }
        }
        lemma_filled(tokens, i + 1, more, params, first, s.next, fl);
    } else {
        assert(done =~= Seq::new(
            tokens.len(),
            |k: int| filled(tokens[k], first + questions(tokens.take(k), 0), params, fl),
        ));
        assert(tokens.take(i) =~= tokens);
    }
}

/// In a field the question marks take the parameters one after the other, from the next one
/// on, and the numbered placeholders those of their numbers. What comes after the field goes
/// on where its question marks end.
pub proof fn question_marks_take_parameters_in_turn(
    field: Seq<char>,
    params: Seq<Datum>,
    next: int,
    fl: FloatModel,
)
    requires
        field_substituted(field, params, next, fl).text is Ok,
    ensures
        ({
            let tokens = tokens_of(field);
            let s = field_substituted(field, params, next, fl);
            let words = Seq::new(
                tokens.len(),
                |k: int| filled(tokens[k], next + questions(tokens.take(k), 0), params, fl),
            );
            &&& s.text == Ok::<Seq<char>, Fault>(spaced(words))
            &&& s.next == next + questions(tokens, 0)
        }),
{
    let tokens = tokens_of(field);
    assert(questions(tokens.take(0), 0) == 0);
    lemma_filled(tokens, 0, Seq::empty(), params, next, next, fl);
}

/// Words are put together with a blank between each two.
pub proof fn words_stand_apart(words: Seq<Seq<char>>, word: Seq<char>)
    ensures
        spaced(seq![word]) == word,
        words.len() > 0 ==> spaced(words.push(word)) == spaced(words) + seq![' '] + word,
{
    reveal_strlit(" ");
    assert(" "@ =~= seq![' ']);
    assert(words.push(word).drop_last() =~= words);
}

proof fn lemma_asked(fields: Seq<Seq<char>>, k: int)
    requires
        0 <= k < fields.len(),
    ensures
        asked(fields.take(k + 1), 0) == asked(fields.take(k), 0) + questions(
            tokens_of(fields[k]),
            0,
        ),
{
    lemma_asked_of_more(fields.take(k), fields[k], 0);
    assert(fields.take(k + 1) =~= fields.take(k).push(fields[k]));
}

proof fn lemma_asked_of_more(fields: Seq<Seq<char>>, f: Seq<char>, i: int)
    requires
        0 <= i <= fields.len(),
    ensures
        asked(fields.push(f), i) == asked(fields, i) + questions(tokens_of(f), 0),
    decreases fields.len() - i,
{
    let more = fields.push(f);
    if i < fields.len() {
        assert(more[i] == fields[i]);
        lemma_asked_of_more(fields, f, i + 1);
    } else {
        assert(more[i] == f);
        assert(asked(more, i + 1) == 0);
        assert(asked(fields, i) == 0);
    }
}

proof fn lemma_bound_list(
    fields: Seq<Seq<char>>,
    i: int,
    done: Seq<Seq<char>>,
    params: Seq<Datum>,
    first: int,
    next: int,
    fl: FloatModel,
)
    requires
        0 <= i <= fields.len(),
        done.len() == i,
        next == first + asked(fields.take(i), 0),
        bound_list(fields, i, done, params, next, fl).texts is Ok,
    ensures
        ({
            let b = bound_list(fields, i, done, params, next, fl);
            &&& b.texts->Ok_0.len() == fields.len()
            &&& forall|k: int| 0 <= k < i ==> b.texts->Ok_0[k] == done[k]
            &&& forall|k: int|
                i <= k < fields.len() ==> field_substituted(
                    #[trigger] fields[k],
                    params,
                    first + asked(fields.take(k), 0),
                    fl,
                ).text == Ok::<Seq<char>, Fault>(b.texts->Ok_0[k])
            &&& b.next == first + asked(fields, 0)
        }),
    decreases fields.len() - i,
{
    if i < fields.len() {
        let s = field_substituted(fields[i], params, next, fl);
        question_marks_take_parameters_in_turn(fields[i], params, next, fl);
        lemma_asked(fields, i);
        let more = done.push(s.text->Ok_0);
        lemma_bound_list(fields, i + 1, more, params, first, s.next, fl);
        let out = bound_list(fields, i, done, params, next, fl).texts->Ok_0;
        assert(out[i] == more[i]);
        assert forall|k: int| 0 <= k < i implies out[k] == done[k] by {
            assert(out[k] == more[k]);
        }
    } else {
        assert(fields.take(i) =~= fields);
    }
}

/// The fields of a list take their parameters one after the other: each goes on where the
/// fields before it have ended.
pub proof fn fields_take_parameters_in_turn(
    fields: Seq<Seq<char>>,
    params: Seq<Datum>,
    next: int,
    fl: FloatModel,
    k: int,
)
    requires
        bound_list(fields, 0, Seq::empty(), params, next, fl).texts is Ok,
        0 <= k < fields.len(),
    ensures
        ({
            let b = bound_list(fields, 0, Seq::empty(), params, next, fl);
            &&& b.texts->Ok_0.len() == fields.len()
            &&& field_substituted(
                fields[k],
                params,
                next + asked(fields.take(k), 0),
                fl,
            ).text == Ok::<Seq<char>, Fault>(b.texts->Ok_0[k])
            &&& b.next == next + asked(fields, 0)
        }),
{
    assert(asked(fields.take(0), 0) == 0);
    lemma_bound_list(fields, 0, Seq::empty(), params, next, next, fl);
}

/// An update's expressions take the first parameters, in their order, and its clause those
/// that follow. The columns and the table stay.
pub proof fn an_update_takes_parameters_from_left_to_right(
    q: UpdateModel,
    params: Seq<Datum>,
    fl: FloatModel,
    k: int,
)
    requires
        bound_kind(PreparedModel::Update(q), params, fl) is Ok,
        0 <= k < q.assignments.len(),
    ensures
        match bound_kind(PreparedModel::Update(q), params, fl)->Ok_0 {
            PreparedModel::Update(u) => {
                let sides = right_sides(q.assignments);
                &&& u.table == q.table
                &&& u.assignments.len() == q.assignments.len()
                &&& u.assignments[k].0 == q.assignments[k].0
                &&& field_substituted(
                    q.assignments[k].1,
                    params,
                    asked(sides.take(k), 0),
                    fl,
                ).text == Ok::<Seq<char>, Fault>(u.assignments[k].1)
                &&& match (q.where_clause, u.where_clause) {
                    (Some(p), Some(c)) => field_substituted(p, params, asked(sides, 0), fl).text
                        == Ok::<Seq<char>, Fault>(c),
                    (None, None) => true,
                    _ => false,
                }
            },
            _ => false,
        },
{
    let sides = right_sides(q.assignments);
    fields_take_parameters_in_turn(sides, params, 0, fl, k);
    assert(sides[k] == q.assignments[k].1);
}

/// A deletion's clause takes the parameters from the first on.
pub proof fn a_deletion_takes_parameters_from_the_first(
    q: DeleteModel,
    params: Seq<Datum>,
    fl: FloatModel,
)
    requires
        bound_kind(PreparedModel::Delete(q), params, fl) is Ok,
    ensures
        match bound_kind(PreparedModel::Delete(q), params, fl)->Ok_0 {
            PreparedModel::Delete(d) => d.table == q.table && match (
                q.where_clause,
                d.where_clause,
            ) {
                (Some(p), Some(c)) => field_substituted(p, params, 0, fl).text == Ok::<
                    Seq<char>,
                    Fault,
                >(c),
                (None, None) => true,
                _ => false,
            },
            _ => false,
        },
{
}

/// The first row of an insertion takes the first parameters; the rows and columns stay as
/// many as they are, in the same table.
pub proof fn an_insertion_takes_parameters_row_by_row(
    q: InsertModel,
    params: Seq<Datum>,
    fl: FloatModel,
    k: int,
)
    requires
        bound_kind(PreparedModel::Insert(q), params, fl) is Ok,
        q.values.len() > 0,
        0 <= k < q.values[0].len(),
    ensures
        match bound_kind(PreparedModel::Insert(q), params, fl)->Ok_0 {
            PreparedModel::Insert(n) => {
                &&& n.table == q.table
                &&& n.columns == q.columns
                &&& n.values.len() == q.values.len()
                &&& n.values[0].len() == q.values[0].len()
                &&& field_substituted(
                    q.values[0][k],
                    params,
                    asked(q.values[0].take(k), 0),
                    fl,
                ).text == Ok::<Seq<char>, Fault>(n.values[0][k])
            },
            _ => false,
        },
{
    let b = bound_list(q.values[0], 0, Seq::empty(), params, 0, fl);
    fields_take_parameters_in_turn(q.values[0], params, 0, fl, k);
    let none = Seq::<Seq<Seq<char>>>::empty();
    lemma_bound_rows(q.values, 1, none.push(b.texts->Ok_0), params, b.next, fl);
    let rows = bound_rows(q.values, 0, none, params, 0, fl)->Ok_0;
    assert(rows[0] == none.push(b.texts->Ok_0)[0]);
}

proof fn lemma_bound_rows(
    values: Seq<Seq<Seq<char>>>,
    i: int,
    done: Seq<Seq<Seq<char>>>,
    params: Seq<Datum>,
    next: int,
    fl: FloatModel,
)
    requires
        0 <= i <= values.len(),
        done.len() == i,
        bound_rows(values, i, done, params, next, fl) is Ok,
    ensures
        bound_rows(values, i, done, params, next, fl)->Ok_0.len() == values.len(),
        forall|k: int|
            0 <= k < i ==> #[trigger] bound_rows(values, i, done, params, next, fl)->Ok_0[k]
                == done[k],
    decreases values.len() - i,
{
    if i < values.len() {
        let b = bound_list(values[i], 0, Seq::empty(), params, next, fl);
        let more = done.push(b.texts->Ok_0);
        lemma_bound_rows(values, i + 1, more, params, b.next, fl);
        let out = bound_rows(values, i, done, params, next, fl)->Ok_0;
        assert forall|k: int| 0 <= k < i implies #[trigger] out[k] == done[k] by {
            assert(out[k] == more[k]);
        }
    }
}

/// A statement with fewer parameters than it needs is refused.
pub proof fn too_few_parameters_are_refused(
    k: PreparedModel,
    param_count: usize,
    params: Seq<Datum>,
    fl: FloatModel,
)
    ensures
        params.len() < param_count ==> bound_statement(k, param_count, params, fl) is Err,
        params.len() >= param_count ==> bound_statement(k, param_count, params, fl) == bound_kind(
            k,
            params,
            fl,
        ),
{
}

// ---- accepting statements -----------------------------------------------------------

/// A name that may stand in a statement on a table: a column of it, or something else than
/// a plain name.
pub open spec fn may_stand(table: SchemaModel, name: Seq<char>) -> bool {
    table.position(name) is Some || !simple_identifier(name) || name == "*"@
}

proof fn lemma_columns(table: SchemaModel, names: Seq<Seq<char>>, i: int)
    requires
        0 <= i <= names.len(),
    ensures
        columns_checked(table, names, i) is Ok <==> forall|k: int|
            i <= k < names.len() ==> may_stand(table, #[trigger] names[k]),
    decreases names.len() - i,
{
    if i < names.len() {
        lemma_columns(table, names, i + 1);
        if columns_checked(table, names, i) is Ok {
            assert forall|k: int| i <= k < names.len() implies may_stand(
                table,
                #[trigger] names[k],
            ) by {}
        }
    }
}

proof fn lemma_arity(table: Seq<char>, values: Seq<Seq<Seq<char>>>, expected: int, i: int)
    requires
        0 <= i <= values.len(),
    ensures
        arity_checked(table, values, expected, i) is Ok <==> forall|k: int|
            i <= k < values.len() ==> (#[trigger] values[k]).len() == expected,
    decreases values.len() - i,
{
    if i < values.len() {
        lemma_arity(table, values, expected, i + 1);
    }
}

/// A query is accepted where its table exists and has the columns that it names.
pub proof fn a_query_names_known_columns(catalog: Seq<SchemaModel>, q: SelectModel)
    ensures
        bound(catalog, StatementModel::Select(q)) is Ok <==> table_named(catalog, q.from) is Some
            && forall|k: int|
            0 <= k < q.columns.len() ==> may_stand(
                table_named(catalog, q.from)->0,
                #[trigger] q.columns[k],
            ),
{
    if table_named(catalog, q.from) is Some {
        lemma_columns(table_named(catalog, q.from)->0, q.columns, 0);
    }
}

/// An insertion is accepted where its table exists, has the columns that it names, and
/// every row has a value for each of them, or for each column of the table where it names
/// none.
pub proof fn an_insertion_has_a_value_for_every_column(catalog: Seq<SchemaModel>, q: InsertModel)
    ensures
        bound(catalog, StatementModel::Insert(q)) is Ok <==> {
            let t = table_named(catalog, q.table)->0;
            let n = if q.columns.len() == 0 { t.columns.len() } else { q.columns.len() };
            &&& table_named(catalog, q.table) is Some
            &&& forall|k: int| 0 <= k < q.columns.len() ==> may_stand(t, #[trigger] q.columns[k])
            &&& forall|k: int| 0 <= k < q.values.len() ==> (#[trigger] q.values[k]).len() == n
        },
{
    if table_named(catalog, q.table) is Some {
        let t = table_named(catalog, q.table)->0;
        let n = if q.columns.len() == 0 { t.columns.len() } else { q.columns.len() };
        lemma_columns(t, q.columns, 0);
        lemma_arity(t.name, q.values, n as int, 0);
    }
}

/// An update is accepted where its table exists and has the columns that are assigned to,
/// a deletion where its table exists.
pub proof fn a_change_names_known_columns(
    catalog: Seq<SchemaModel>,
    q: UpdateModel,
    d: DeleteModel,
)
    ensures
        bound(catalog, StatementModel::Update(q)) is Ok <==> table_named(catalog, q.table) is Some
            && forall|k: int|
            0 <= k < q.assignments.len() ==> may_stand(
                table_named(catalog, q.table)->0,
                (#[trigger] q.assignments[k]).0,
            ),
        bound(catalog, StatementModel::Delete(d)) is Ok <==> table_named(catalog, d.table) is Some,
{
    if table_named(catalog, q.table) is Some {
        let t = table_named(catalog, q.table)->0;
        let names = crate::sql::binder::assigned_columns(q.assignments);
        lemma_columns(t, names, 0);
        assert forall|k: int| 0 <= k < names.len() implies #[trigger] names[k]
            == q.assignments[k].0 by {}
        if forall|k: int|
            0 <= k < q.assignments.len() ==> may_stand(t, (#[trigger] q.assignments[k]).0) {
            assert forall|k: int| 0 <= k < names.len() implies may_stand(t, #[trigger] names[k]) by {
                assert(may_stand(t, q.assignments[k].0));
            }
        }
        if forall|k: int| 0 <= k < names.len() ==> may_stand(t, #[trigger] names[k]) {
            assert forall|k: int| 0 <= k < q.assignments.len() implies may_stand(
                t,
                (#[trigger] q.assignments[k]).0,
            ) by {
                assert(may_stand(t, names[k]));
            }
        }
    }
}

/// A name is looked up among the columns where it is made of letters, digits and
/// underscores; anything else is left to the query.
pub proof fn plain_names_are_letters_digits_and_underscores(table: SchemaModel, name: Seq<char>)
    ensures
        simple_identifier(name) <==> name.len() > 0 && !exists|i: int|
            0 <= i < name.len() && #[trigger] name[i] != '_' && !alphanumeric(name[i]),
        (forall|i: int| 0 <= i < name.len() ==> #[trigger] name[i] == '_' || alphanumeric(name[i]))
            && name.len() > 0 && name != seq!['*'] && table.position(name) is None
            ==> column_checked(table, name) is Err,
        (exists|i: int| 0 <= i < name.len() && #[trigger] name[i] != '_' && !alphanumeric(name[i]))
            ==> column_checked(table, name) is Ok,
{
    reveal_strlit("*");
    assert("*"@ =~= seq!['*']);
}

} // verus!
