//! What becomes of the parts of a statement.

use vstd::prelude::*;
use crate::error::Fault;
use crate::sql::parser::{
    analyze_of, column_defs, condition_of, delete_of, either_word, equi_of, index_of, joins_of,
    kind_of, rows_given, ruled, select_of, CreateIndexModel, DeleteModel, EquiModel, JoinKind,
    JoinTextModel, StatementModel,
};
use crate::sql::source::{
    ColumnRule, InsertSourceModel, ItemWord, JoinWord, LimitTextModel, LimitTextsModel,
    SelectTextsModel,
};
use crate::text::{all_digits, number};

verus! {

/// A join is a left one where the statement says so, with or without `OUTER`, likewise a
/// right one, and a full one; every other join is an inner one.
pub proof fn joins_are_of_the_kind_that_is_said(word: JoinWord)
    ensures
        (kind_of(word) == JoinKind::Left) <==> word == JoinWord::Left || word
            == JoinWord::LeftOuter,
        (kind_of(word) == JoinKind::Right) <==> word == JoinWord::Right || word
            == JoinWord::RightOuter,
        (kind_of(word) == JoinKind::FullOuter) <==> word == JoinWord::FullOuter,
{
}

/// An inner, an outer and a cross join keep the condition that they are given.
pub proof fn joins_keep_their_condition(word: JoinWord, on: Option<Seq<char>>)
    ensures
        kind_of(word) != JoinKind::Inner ==> condition_of(word, on) == on,
        word == JoinWord::Join || word == JoinWord::Inner || word == JoinWord::CrossJoin
            ==> condition_of(word, on) == on,
        on is None ==> condition_of(word, on) is None,
{
}

/// `USING` gives its columns, `NATURAL` none, and without either there is nothing to equate.
pub proof fn joins_equate_what_is_said(using: Option<Seq<Seq<char>>>, natural: bool)
    ensures
        using matches Some(v) ==> equi_of(using, natural) == Some(EquiModel::Using(v)),
        using is None && natural ==> equi_of(using, natural) == Some(EquiModel::Natural),
        using is None && !natural ==> equi_of(using, natural) is None,
{
}

/// The operator of a join is the one that was found.
pub proof fn the_found_operator_is_taken(w: JoinWord, other: Option<JoinWord>)
    ensures
        either_word(Some(w), other) == w,
        either_word(None, Some(w)) == w,
{
}

/// The joins of a query are with the tables behind the first, in their order, each under
/// its alias and with what is said of it.
pub proof fn joined_tables_follow_the_first(
    tables: Seq<(Seq<char>, Option<Seq<char>>)>,
    said: Seq<JoinTextModel>,
    k: int,
)
    requires
        0 <= k < said.len(),
        said.len() + 1 == tables.len(),
    ensures
        ({
            let j = joins_of(tables, said)[k];
            &&& joins_of(tables, said).len() == said.len()
            &&& j.table == tables[k + 1].0
            &&& j.alias == tables[k + 1].1
            &&& j.kind == kind_of(said[k].word)
            &&& j.condition == condition_of(said[k].word, said[k].on)
            &&& j.equi == equi_of(said[k].using, said[k].natural)
        }),
{
}

/// A query asks for the items as they are written, a wildcard as `*`; it reads the first
/// table, and keeps its clauses, its groups, and whether it says `DISTINCT`.
pub proof fn a_query_keeps_its_parts(
    t: SelectTextsModel,
    groups: Option<Seq<Seq<char>>>,
    tables: Seq<Seq<(Seq<char>, Option<Seq<char>>)>>,
    said: Seq<JoinTextModel>,
    limits: Option<LimitTextsModel>,
    k: int,
)
    requires
        tables.len() > 0,
        tables[0].len() > 0,
    ensures
        ({
            let q = select_of(t, groups, tables, said, limits);
            &&& q.from == tables[0][0].0
            &&& q.from_alias == tables[0][0].1
            &&& q.where_clause == t.where_clause
            &&& q.having == t.having
            &&& q.order_by == t.order_by
            &&& q.distinct == t.distinct
            &&& groups matches Some(g) ==> q.group_by == g
            &&& groups is None ==> q.group_by.len() == 0
            &&& q.columns.len() == t.items.len()
            &&& 0 <= k < t.items.len() && t.items[k].0 == ItemWord::Other ==> q.columns[k]
                == t.items[k].1
            &&& 0 <= k < t.items.len() && t.items[k].0 != ItemWord::Other ==> q.columns[k] == seq![
                '*',
            ]
            &&& q.joins == joins_of(tables[0], said)
        }),
{
    reveal_strlit("*");
    assert("*"@ =~= seq!['*']);
}

/// A limit and an offset that are written in digits are the numbers that the digits make;
/// where none is said, there is none.
pub proof fn limits_are_read_as_numbers(
    t: SelectTextsModel,
    groups: Option<Seq<Seq<char>>>,
    tables: Seq<Seq<(Seq<char>, Option<Seq<char>>)>>,
    said: Seq<JoinTextModel>,
    limit: Seq<char>,
    offset: Seq<char>,
)
    requires
        limit.len() > 0 && all_digits(limit) && number(limit) <= usize::MAX,
        offset.len() > 0 && all_digits(offset) && number(offset) <= usize::MAX,
    ensures
        ({
            let l = Some(LimitTextModel::Number(limit));
            let o = Some(LimitTextModel::Number(offset));
            let with = |a: Option<LimitTextModel>, b: Option<LimitTextModel>|
                select_of(t, groups, tables, said, Some(LimitTextsModel::LimitOffset(a, b)));
            &&& with(l, o).limit == Some(number(limit) as usize)
            &&& with(l, o).offset == Some(number(offset) as usize)
            &&& with(l, None).offset is None
            &&& with(None, o).limit is None
            &&& select_of(t, groups, tables, said, None).limit is None
            &&& select_of(t, groups, tables, said, None).offset is None
        }),
{
    assert(limit[0] != '+');
    assert(offset[0] != '+');
}

/// A column is a primary key where one of its rules says so. It may be null unless the last
/// of its rules that speaks of it forbids it, as `NOT NULL` and a primary key do.
pub proof fn columns_follow_their_rules(rules: Seq<ColumnRule>, rule: ColumnRule, n: int)
    requires
        0 <= n <= rules.len(),
    ensures
        ruled(rules, n).1 <==> exists|k: int|
            0 <= k < n && #[trigger] rules[k] == ColumnRule::PrimaryKey,
        ruled(Seq::empty(), 0).0,
        ({
            let more = rules.push(rule);
            let m = rules.len() + 1;
            &&& rule == ColumnRule::NotNull || rule == ColumnRule::PrimaryKey ==> !ruled(
                more,
                m as int,
            ).0
            &&& rule == ColumnRule::Null ==> ruled(more, m as int).0
            &&& rule == ColumnRule::Other ==> ruled(more, m as int) == ruled(
                rules,
                rules.len() as int,
            )
        }),
    decreases n,
{
    if n > 0 {
        columns_follow_their_rules(rules, rule, n - 1);
    }
    lemma_ruled_of_more(rules, rule, rules.len() as int);
    assert(rules.push(rule)[rules.len() as int] == rule);
}

proof fn lemma_ruled_of_more(rules: Seq<ColumnRule>, rule: ColumnRule, n: int)
    requires
        0 <= n <= rules.len(),
    ensures
        ruled(rules.push(rule), n) == ruled(rules, n),
    decreases n,
{
    if n > 0 {
        lemma_ruled_of_more(rules, rule, n - 1);
        assert(rules.push(rule)[n - 1] == rules[n - 1]);
    }
}

/// The columns of a new table keep their names, their types as written and their order.
pub proof fn defined_columns_keep_their_parts(
    v: Seq<(Seq<char>, Seq<char>, Seq<ColumnRule>)>,
    k: int,
)
    requires
        0 <= k < v.len(),
    ensures
        column_defs(v).len() == v.len(),
        column_defs(v)[k].name == v[k].0,
        column_defs(v)[k].data_type == v[k].1,
        column_defs(v)[k].primary_key <==> v[k].2.contains(ColumnRule::PrimaryKey),
{
    columns_follow_their_rules(v[k].2, ColumnRule::Other, v[k].2.len() as int);
}

/// A deletion is from its first table and keeps its clause; an index is of the first column
/// that it names. What is missing is an error.
pub proof fn statements_need_their_parts(
    tables: Seq<Seq<char>>,
    where_clause: Option<Seq<char>>,
    name: Option<Seq<char>>,
    table: Seq<char>,
    columns: Seq<Seq<char>>,
    analyzed: Option<Seq<char>>,
    rows: Seq<Seq<Seq<char>>>,
)
    ensures
        delete_of(tables, where_clause) is Err <==> tables.len() == 0,
        tables.len() > 0 ==> delete_of(tables, where_clause) == Ok::<StatementModel, Fault>(
            StatementModel::Delete(DeleteModel { table: tables[0], where_clause }),
        ),
        index_of(name, table, columns) is Err <==> name is None || columns.len() == 0,
        name is Some && columns.len() > 0 ==> index_of(name, table, columns) == Ok::<
            StatementModel,
            Fault,
        >(
            StatementModel::CreateIndex(
                CreateIndexModel { name: name->0, table, column: columns[0] },
            ),
        ),
        analyze_of(analyzed) is Err <==> analyzed is None,
        analyzed matches Some(t) ==> analyze_of(analyzed) == Ok::<StatementModel, Fault>(
            StatementModel::Analyze(t),
        ),
        rows_given(InsertSourceModel::Values(rows)) == rows,
{
}

} // verus!
