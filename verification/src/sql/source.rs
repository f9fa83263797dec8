//! What `sqlparser` reads in the text of a statement.
//!
//! Each function hands the text to the parser and gives a part of its first
//! statement as plain values. A part that the statement does not have is none.

use vstd::prelude::*;
use sqlparser::ast::{
    ColumnOption, Expr, FromTable, GroupByExpr, LimitClause, SetExpr, Statement, TableFactor, Value,
};
use sqlparser::ast::Distinct::Distinct;
use sqlparser::ast::JoinConstraint::{Natural, On, Using};
use sqlparser::ast::JoinOperator::{
    Anti, ArrayJoin, AsOf, CrossApply, CrossJoin, FullOuter, Inner, InnerArrayJoin, Join, Left,
    LeftAnti, LeftArrayJoin, LeftOuter, LeftSemi, OuterApply, Right, RightAnti, RightOuter,
    RightSemi, Semi, StraightJoin,
};
use sqlparser::ast::SelectItem::{QualifiedWildcard, Wildcard};
use sqlparser::dialect::GenericDialect;
use sqlparser::parser::Parser;
use crate::execution::aggregate::optional_text;
use crate::sql::parser::{text_pairs, text_rows};
use crate::text::texts;

verus! {

/// What kind of statement a text holds. A query that is not a plain `SELECT`,
/// and a statement of any other kind, come with their rendered text.
pub enum Heading {
    Select,
    OtherQuery(String),
    Insert,
    Update,
    Delete,
    CreateTable,
    CreateIndex,
    Analyze,
    Other(String),
}

/// A heading as contracts speak of it.
pub enum HeadingModel {
    Select,
    OtherQuery(Seq<char>),
    Insert,
    Update,
    Delete,
    CreateTable,
    CreateIndex,
    Analyze,
    Other(Seq<char>),
}

impl View for Heading {
    type V = HeadingModel;

    open spec fn view(&self) -> HeadingModel {
        match *self {
            Heading::Select => HeadingModel::Select,
            Heading::OtherQuery(s) => HeadingModel::OtherQuery(s@),
            Heading::Insert => HeadingModel::Insert,
            Heading::Update => HeadingModel::Update,
            Heading::Delete => HeadingModel::Delete,
            Heading::CreateTable => HeadingModel::CreateTable,
            Heading::CreateIndex => HeadingModel::CreateIndex,
            Heading::Analyze => HeadingModel::Analyze,
            Heading::Other(s) => HeadingModel::Other(s@),
        }
    }
}

/// The heading of the first statement of a text, none where there is no
/// statement, or the text of the error.
pub open spec fn heading_model(r: Result<Option<Heading>, String>) -> Result<
    Option<HeadingModel>,
    Seq<char>,
> {
    match r {
        Ok(Some(h)) => Ok(Some(h@)),
        Ok(None) => Ok(None),
        Err(e) => Err(e@),
    }
}

/// The heading that `sqlparser` finds in a text.
pub uninterp spec fn sql_heading(sql: Seq<char>) -> Result<Option<HeadingModel>, Seq<char>>;

/// Calls `Parser::parse_sql` and tells what kind its first statement is. The
/// result depends on the text alone.
#[verifier::external_body]
pub(crate) fn statement_heading(sql: &str) -> (r: Result<Option<Heading>, String>)
    ensures
        heading_model(r) == sql_heading(sql@),
{
    let all = Parser::parse_sql(&GenericDialect {}, sql).map_err(|e| e.to_string())?;
    Ok(all.into_iter().next().map(|s| match s {
        Statement::Query(q) => match *q.body {
            SetExpr::Select(_) => Heading::Select,
            other => Heading::OtherQuery(other.to_string()),
        },
        Statement::Insert(_) => Heading::Insert,
        Statement::Update(_) => Heading::Update,
        Statement::Delete(_) => Heading::Delete,
        Statement::CreateTable(_) => Heading::CreateTable,
        Statement::CreateIndex(_) => Heading::CreateIndex,
        Statement::Analyze(_) => Heading::Analyze,
        other => Heading::Other(other.to_string()),
    }))
}

/// Whether a text has a given heading.
pub open spec fn heading_is(sql: Seq<char>, h: HeadingModel) -> bool {
    sql_heading(sql) matches Ok(Some(x)) && x == h
}

/// The form of a projected item.
#[derive(Clone, Copy, Debug, PartialEq, Eq, Structural)]
pub enum ItemWord {
    Wildcard,
    QualifiedWildcard,
    Other,
}

/// The texts of a `SELECT`: each projected item, with its form; the conditions of
/// `WHERE` and `HAVING`; the `ORDER BY` clause; and whether it says `DISTINCT`.
pub type SelectTexts = (
    Vec<(ItemWord, String)>,
    Option<String>,
    Option<String>,
    Option<String>,
    bool,
);

/// The texts of a `SELECT` as contracts speak of them.
pub struct SelectTextsModel {
    pub items: Seq<(ItemWord, Seq<char>)>,
    pub where_clause: Option<Seq<char>>,
    pub having: Option<Seq<char>>,
    pub order_by: Option<Seq<char>>,
    pub distinct: bool,
}

/// Projected items, each as its model.
pub open spec fn item_models(v: Seq<(ItemWord, String)>) -> Seq<(ItemWord, Seq<char>)> {
    v.map_values(|i: (ItemWord, String)| (i.0, i.1@))
}

pub open spec fn select_texts_model(r: Option<SelectTexts>) -> Option<SelectTextsModel> {
    match r {
        Some(t) => Some(
            SelectTextsModel {
                items: item_models(t.0@),
                where_clause: optional_text(t.1),
                having: optional_text(t.2),
                order_by: optional_text(t.3),
                distinct: t.4,
            },
        ),
        None => None,
    }
}

/// The texts that `sqlparser` renders of a `SELECT`.
pub uninterp spec fn sql_select_texts(sql: Seq<char>) -> Option<SelectTextsModel>;

/// Calls `Parser::parse_sql` and renders the items and clauses of a `SELECT`.
/// The result depends on the text alone, and is there wherever the heading is
/// that of a `SELECT`.
#[verifier::external_body]
pub(crate) fn select_texts(sql: &str) -> (r: Option<SelectTexts>)
    ensures
        select_texts_model(r) == sql_select_texts(sql@),
        heading_is(sql@, HeadingModel::Select) ==> r is Some,
{
    let all = Parser::parse_sql(&GenericDialect {}, sql).ok()?;
    let Statement::Query(q) = all.into_iter().next()? else { return None };
    let SetExpr::Select(b) = *q.body else { return None };
    Some((
        b.projection.iter().map(|i| (match i {
            Wildcard(_) => ItemWord::Wildcard,
            QualifiedWildcard(..) => ItemWord::QualifiedWildcard,
            _ => ItemWord::Other,
        }, i.to_string())).collect(),
        b.selection.as_ref().map(|e| e.to_string()),
        b.having.as_ref().map(|e| e.to_string()),
        q.order_by.as_ref().map(|o| o.to_string()),
        matches!(b.distinct, Some(Distinct)),
    ))
}

pub open spec fn group_model(r: Option<Vec<String>>) -> Option<Seq<Seq<char>>> {
    match r {
        Some(v) => Some(texts(v@)),
        None => None,
    }
}

/// The expressions that `sqlparser` finds behind `GROUP BY`; none for `ALL`.
pub uninterp spec fn sql_groups(sql: Seq<char>) -> Option<Seq<Seq<char>>>;

/// Calls `Parser::parse_sql` and renders the `GROUP BY` expressions of a
/// `SELECT`. The result depends on the text alone.
#[verifier::external_body]
pub(crate) fn select_groups(sql: &str) -> (r: Option<Vec<String>>)
    ensures
        group_model(r) == sql_groups(sql@),
{
    let all = Parser::parse_sql(&GenericDialect {}, sql).ok()?;
    let Statement::Query(q) = all.into_iter().next()? else { return None };
    let SetExpr::Select(b) = *q.body else { return None };
    match b.group_by {
        GroupByExpr::Expressions(v, _) => Some(v.iter().map(|e| e.to_string()).collect()),
        GroupByExpr::All(_) => None,
    }
}

/// A table and its alias.
pub type TableText = (String, Option<String>);

/// A table and its alias as contracts speak of them.
pub open spec fn table_model(t: TableText) -> (Seq<char>, Option<Seq<char>>) {
    (t.0@, optional_text(t.1))
}

/// Tables and aliases, each as its model.
pub open spec fn table_models(v: Seq<TableText>) -> Seq<(Seq<char>, Option<Seq<char>>)> {
    v.map_values(|t: TableText| table_model(t))
}

/// Lists of tables and aliases, each as its model.
pub open spec fn table_rows(v: Seq<Vec<TableText>>) -> Seq<Seq<(Seq<char>, Option<Seq<char>>)>> {
    v.map_values(|t: Vec<TableText>| table_models(t@))
}

/// The tables that `sqlparser` finds behind `FROM`: for each item there, the
/// table itself and then those joined to it.
pub uninterp spec fn sql_tables(sql: Seq<char>) -> Seq<Seq<(Seq<char>, Option<Seq<char>>)>>;

/// Calls `Parser::parse_sql` and gives the tables of a `SELECT` with their
/// aliases. The result depends on the text alone.
#[verifier::external_body]
pub(crate) fn select_tables(sql: &str) -> (r: Vec<Vec<TableText>>)
    ensures
        table_rows(r@) == sql_tables(sql@),
{
    let all = Parser::parse_sql(&GenericDialect {}, sql).unwrap_or_default();
    let Some(Statement::Query(q)) = all.into_iter().next() else { return Vec::new() };
    let SetExpr::Select(b) = *q.body else { return Vec::new() };
    let part = |t: &TableFactor| match t {
        TableFactor::Table { name, alias, .. } => (name.to_string(), alias.as_ref().map(|a| a.name.value.clone())),
        other => (other.to_string(), None),
    };
    b.from.iter().map(|t| std::iter::once(&t.relation).chain(t.joins.iter().map(|j| &j.relation)).map(part).collect()).collect()
}

/// The operator that joins a table.
#[derive(Clone, Copy, Debug, PartialEq, Eq, Structural)]
pub enum JoinWord {
    Join,
    Inner,
    Left,
    LeftOuter,
    Right,
    RightOuter,
    FullOuter,
    CrossJoin,
    Semi,
    LeftSemi,
    RightSemi,
    Anti,
    LeftAnti,
    RightAnti,
    CrossApply,
    OuterApply,
    AsOf,
    StraightJoin,
    ArrayJoin,
    LeftArrayJoin,
    InnerArrayJoin,
}

/// The operator of the `k`-th join of an item behind `FROM`, where `sqlparser` finds
/// one of those that join all rows that match.
pub uninterp spec fn sql_plain_join(sql: Seq<char>, item: usize, k: usize) -> Option<JoinWord>;

/// Calls `Parser::parse_sql` and tells which inner, outer or cross join the `k`-th join
/// of an item behind `FROM` is; none where it is a join of another kind. The result
/// depends on the arguments alone.
#[verifier::external_body]
pub(crate) fn plain_join(sql: &str, item: usize, k: usize) -> (r: Option<JoinWord>)
    ensures
        r == sql_plain_join(sql@, item, k),
{
    let all = Parser::parse_sql(&GenericDialect {}, sql).ok()?;
    let Statement::Query(q) = all.first()? else { return None };
    Some(match q.body.as_select()?.from.get(item)?.joins.get(k)?.join_operator {
        Join(_) => JoinWord::Join,
        Inner(_) => JoinWord::Inner,
        Left(_) => JoinWord::Left,
        LeftOuter(_) => JoinWord::LeftOuter,
        Right(_) => JoinWord::Right,
        RightOuter(_) => JoinWord::RightOuter,
        FullOuter(_) => JoinWord::FullOuter,
        CrossJoin(_) => JoinWord::CrossJoin,
        _ => return None,
    })
}

/// The operator of the `k`-th join of an item behind `FROM`, where `sqlparser` finds
/// one that is no inner, outer or cross join.
pub uninterp spec fn sql_special_join(sql: Seq<char>, item: usize, k: usize) -> Option<JoinWord>;

/// Calls `Parser::parse_sql` and tells which join the `k`-th join of an item behind
/// `FROM` is; none where it is an inner, outer or cross join. The result depends on the
/// arguments alone.
#[verifier::external_body]
pub(crate) fn special_join(sql: &str, item: usize, k: usize) -> (r: Option<JoinWord>)
    ensures
        r == sql_special_join(sql@, item, k),
{
    let all = Parser::parse_sql(&GenericDialect {}, sql).ok()?;
    let Statement::Query(q) = all.first()? else { return None };
    Some(match q.body.as_select()?.from.get(item)?.joins.get(k)?.join_operator {
        Semi(_) => JoinWord::Semi, LeftSemi(_) => JoinWord::LeftSemi,
        RightSemi(_) => JoinWord::RightSemi, Anti(_) => JoinWord::Anti,
        LeftAnti(_) => JoinWord::LeftAnti, RightAnti(_) => JoinWord::RightAnti,
        CrossApply => JoinWord::CrossApply, OuterApply => JoinWord::OuterApply,
        AsOf { .. } => JoinWord::AsOf, StraightJoin(_) => JoinWord::StraightJoin,
        ArrayJoin => JoinWord::ArrayJoin, LeftArrayJoin => JoinWord::LeftArrayJoin,
        InnerArrayJoin => JoinWord::InnerArrayJoin,
        _ => return None,
    })
}

/// The condition behind `ON` of the `k`-th join of an item behind `FROM`, where
/// `sqlparser` finds one.
pub uninterp spec fn sql_join_on(sql: Seq<char>, item: usize, k: usize) -> Option<Seq<char>>;

/// Calls `Parser::parse_sql` and renders the `ON` condition of the `k`-th join of an
/// item behind `FROM`, whatever its operator. The result depends on the arguments alone.
#[verifier::external_body]
pub(crate) fn join_on(sql: &str, item: usize, k: usize) -> (r: Option<String>)
    ensures
        optional_text(r) == sql_join_on(sql@, item, k),
{
    let all = Parser::parse_sql(&GenericDialect {}, sql).ok()?;
    let Statement::Query(q) = all.first()? else { return None };
    match &q.body.as_select()?.from.get(item)?.joins.get(k)?.join_operator {
        Join(c) | Inner(c) | Left(c) | LeftOuter(c) | Right(c) | RightOuter(c) | FullOuter(c) | CrossJoin(c)
        | Semi(c) | LeftSemi(c) | RightSemi(c) | Anti(c) | LeftAnti(c) | RightAnti(c) | StraightJoin(c)
        | AsOf { constraint: c, .. } => match c {
            On(e) => Some(e.to_string()),
            _ => None,
        },
        _ => None,
    }
}

/// The columns behind `USING` of the `k`-th join of an item behind `FROM`, where
/// `sqlparser` finds some.
pub uninterp spec fn sql_join_using(sql: Seq<char>, item: usize, k: usize) -> Option<Seq<Seq<char>>>;

/// Calls `Parser::parse_sql` and renders the `USING` columns of the `k`-th join of an
/// item behind `FROM`, whatever its operator. The result depends on the arguments alone.
#[verifier::external_body]
pub(crate) fn join_using(sql: &str, item: usize, k: usize) -> (r: Option<Vec<String>>)
    ensures
        group_model(r) == sql_join_using(sql@, item, k),
{
    let all = Parser::parse_sql(&GenericDialect {}, sql).ok()?;
    let Statement::Query(q) = all.first()? else { return None };
    match &q.body.as_select()?.from.get(item)?.joins.get(k)?.join_operator {
        Join(c) | Inner(c) | Left(c) | LeftOuter(c) | Right(c) | RightOuter(c) | FullOuter(c) | CrossJoin(c)
        | Semi(c) | LeftSemi(c) | RightSemi(c) | Anti(c) | LeftAnti(c) | RightAnti(c) | StraightJoin(c)
        | AsOf { constraint: c, .. } => match c {
            Using(v) => Some(v.iter().map(|n| n.to_string()).collect()),
            _ => None,
        },
        _ => None,
    }
}

/// Whether `sqlparser` finds `NATURAL` before the `k`-th join of an item behind `FROM`.
pub uninterp spec fn sql_join_natural(sql: Seq<char>, item: usize, k: usize) -> Option<bool>;

/// Calls `Parser::parse_sql` and tells whether the `k`-th join of an item behind `FROM`
/// is `NATURAL`, whatever its operator. The result depends on the arguments alone.
#[verifier::external_body]
pub(crate) fn join_natural(sql: &str, item: usize, k: usize) -> (r: Option<bool>)
    ensures
        r == sql_join_natural(sql@, item, k),
{
    let all = Parser::parse_sql(&GenericDialect {}, sql).ok()?;
    let Statement::Query(q) = all.first()? else { return None };
    match &q.body.as_select()?.from.get(item)?.joins.get(k)?.join_operator {
        Join(c) | Inner(c) | Left(c) | LeftOuter(c) | Right(c) | RightOuter(c) | FullOuter(c) | CrossJoin(c)
        | Semi(c) | LeftSemi(c) | RightSemi(c) | Anti(c) | LeftAnti(c) | RightAnti(c) | StraightJoin(c)
        | AsOf { constraint: c, .. } => Some(matches!(c, Natural)),
        _ => None,
    }
}

/// An expression behind `LIMIT` or `OFFSET`: a number literal, or another with its
/// rendered text.
pub enum LimitText {
    Number(String),
    Other(String),
}

/// An expression behind `LIMIT` or `OFFSET` as contracts speak of it.
pub enum LimitTextModel {
    Number(Seq<char>),
    Other(Seq<char>),
}

impl View for LimitText {
    type V = LimitTextModel;

    open spec fn view(&self) -> LimitTextModel {
        match *self {
            LimitText::Number(s) => LimitTextModel::Number(s@),
            LimitText::Other(s) => LimitTextModel::Other(s@),
        }
    }
}

/// A missing or present expression, as its model.
pub open spec fn limit_model(r: Option<LimitText>) -> Option<LimitTextModel> {
    match r {
        Some(t) => Some(t@),
        None => None,
    }
}

/// How a query says how many rows it wants: `LIMIT` and `OFFSET`, or both numbers
/// behind `LIMIT`, the offset first.
pub enum LimitTexts {
    LimitOffset(Option<LimitText>, Option<LimitText>),
    OffsetCommaLimit(LimitText, LimitText),
}

/// How a query says how many rows it wants, as contracts speak of it.
pub enum LimitTextsModel {
    LimitOffset(Option<LimitTextModel>, Option<LimitTextModel>),
    OffsetCommaLimit(LimitTextModel, LimitTextModel),
}

impl View for LimitTexts {
    type V = LimitTextsModel;

    open spec fn view(&self) -> LimitTextsModel {
        match *self {
            LimitTexts::LimitOffset(l, o) => LimitTextsModel::LimitOffset(
                limit_model(l),
                limit_model(o),
            ),
            LimitTexts::OffsetCommaLimit(o, l) => LimitTextsModel::OffsetCommaLimit(o@, l@),
        }
    }
}

/// A missing or present clause, as its model.
pub open spec fn limits_model(r: Option<LimitTexts>) -> Option<LimitTextsModel> {
    match r {
        Some(t) => Some(t@),
        None => None,
    }
}

/// What `sqlparser` finds behind `LIMIT` and `OFFSET`.
pub uninterp spec fn sql_limits(sql: Seq<char>) -> Option<LimitTextsModel>;

/// Calls `Parser::parse_sql` and gives the expressions behind `LIMIT` and `OFFSET` of a
/// query, none where it has no such clause. The result depends on the text alone.
#[verifier::external_body]
pub(crate) fn select_limits(sql: &str) -> (r: Option<LimitTexts>)
    ensures
        limits_model(r) == sql_limits(sql@),
{
    let all = Parser::parse_sql(&GenericDialect {}, sql).ok()?;
    let Statement::Query(q) = all.into_iter().next()? else { return None };
    let text = |e: Expr| match e {
        Expr::Value(v) => match v.value {
            Value::Number(n, _) => LimitText::Number(n.to_string()),
            other => LimitText::Other(other.to_string()),
        },
        other => LimitText::Other(other.to_string()),
    };
    Some(match q.limit_clause? {
        LimitClause::LimitOffset { limit, offset, .. } => LimitTexts::LimitOffset(limit.map(text), offset.map(|o| text(o.value))),
        LimitClause::OffsetCommaLimit { offset, limit } => LimitTexts::OffsetCommaLimit(text(offset), text(limit)),
    })
}

/// Where the rows of an `INSERT` come from: `VALUES`, another query with its rendered
/// text, or nowhere.
pub enum InsertSource {
    Values(Vec<Vec<String>>),
    Query(String),
    Nothing,
}

/// Where the rows of an `INSERT` come from, as contracts speak of it.
pub enum InsertSourceModel {
    Values(Seq<Seq<Seq<char>>>),
    Query(Seq<char>),
    Nothing,
}

impl View for InsertSource {
    type V = InsertSourceModel;

    open spec fn view(&self) -> InsertSourceModel {
        match *self {
            InsertSource::Values(v) => InsertSourceModel::Values(text_rows(v@)),
            InsertSource::Query(s) => InsertSourceModel::Query(s@),
            InsertSource::Nothing => InsertSourceModel::Nothing,
        }
    }
}

/// The parts of an `INSERT`: the table, the columns and the source of the rows.
pub type InsertTexts = (String, Vec<String>, InsertSource);

pub open spec fn insert_texts_model(r: Option<InsertTexts>) -> Option<
    (Seq<char>, Seq<Seq<char>>, InsertSourceModel),
> {
    match r {
        Some(t) => Some((t.0@, texts(t.1@), t.2@)),
        None => None,
    }
}

/// The parts that `sqlparser` finds in an `INSERT`.
pub uninterp spec fn sql_insert(sql: Seq<char>) -> Option<
    (Seq<char>, Seq<Seq<char>>, InsertSourceModel),
>;

/// Calls `Parser::parse_sql` and renders the parts of an `INSERT`. The result
/// depends on the text alone, and is there wherever the heading is that of one.
#[verifier::external_body]
pub(crate) fn insert_texts(sql: &str) -> (r: Option<InsertTexts>)
    ensures
        insert_texts_model(r) == sql_insert(sql@),
        heading_is(sql@, HeadingModel::Insert) ==> r is Some,
{
    let all = Parser::parse_sql(&GenericDialect {}, sql).ok()?;
    let Statement::Insert(i) = all.into_iter().next()? else { return None };
    let source = match i.source.map(|q| *q.body) {
        Some(SetExpr::Values(v)) => InsertSource::Values(v.rows.iter().map(|r| r.content.iter().map(|e| e.to_string()).collect()).collect()),
        Some(other) => InsertSource::Query(other.to_string()),
        None => InsertSource::Nothing,
    };
    Some((i.table.to_string(), i.columns.iter().map(|c| c.to_string()).collect(), source))
}

/// The parts of an `UPDATE`: the table, the assignments and the condition.
pub type UpdateTexts = (String, Vec<(String, String)>, Option<String>);

pub open spec fn update_texts_model(r: Option<UpdateTexts>) -> Option<
    (Seq<char>, Seq<(Seq<char>, Seq<char>)>, Option<Seq<char>>),
> {
    match r {
        Some(t) => Some((t.0@, text_pairs(t.1@), optional_text(t.2))),
        None => None,
    }
}

/// The parts that `sqlparser` finds in an `UPDATE`.
pub uninterp spec fn sql_update(sql: Seq<char>) -> Option<
    (Seq<char>, Seq<(Seq<char>, Seq<char>)>, Option<Seq<char>>),
>;

/// Calls `Parser::parse_sql` and renders the parts of an `UPDATE`. The result
/// depends on the text alone, and is there wherever the heading is that of one.
#[verifier::external_body]
pub(crate) fn update_texts(sql: &str) -> (r: Option<UpdateTexts>)
    ensures
        update_texts_model(r) == sql_update(sql@),
        heading_is(sql@, HeadingModel::Update) ==> r is Some,
{
    let all = Parser::parse_sql(&GenericDialect {}, sql).ok()?;
    let Statement::Update(u) = all.into_iter().next()? else { return None };
    let table = match &u.table.relation {
        TableFactor::Table { name, .. } => name.to_string(),
        other => other.to_string(),
    };
    let set = u.assignments.iter().map(|a| (a.target.to_string(), a.value.to_string())).collect();
    Some((table, set, u.selection.as_ref().map(|e| e.to_string())))
}

/// The parts of a `DELETE`: the tables and the condition.
pub type DeleteTexts = (Vec<String>, Option<String>);

pub open spec fn delete_texts_model(r: Option<DeleteTexts>) -> Option<
    (Seq<Seq<char>>, Option<Seq<char>>),
> {
    match r {
        Some(t) => Some((texts(t.0@), optional_text(t.1))),
        None => None,
    }
}

/// The parts that `sqlparser` finds in a `DELETE`.
pub uninterp spec fn sql_delete(sql: Seq<char>) -> Option<(Seq<Seq<char>>, Option<Seq<char>>)>;

/// Calls `Parser::parse_sql` and renders the parts of a `DELETE`. The result
/// depends on the text alone, and is there wherever the heading is that of one.
#[verifier::external_body]
pub(crate) fn delete_texts(sql: &str) -> (r: Option<DeleteTexts>)
    ensures
        delete_texts_model(r) == sql_delete(sql@),
        heading_is(sql@, HeadingModel::Delete) ==> r is Some,
{
    let all = Parser::parse_sql(&GenericDialect {}, sql).ok()?;
    let Statement::Delete(d) = all.into_iter().next()? else { return None };
    let part = |t: &TableFactor| match t {
        TableFactor::Table { name, .. } => name.to_string(),
        other => other.to_string(),
    };
    let tables = match &d.from {
        FromTable::WithFromKeyword(v) => v.iter().map(|t| part(&t.relation)).collect(),
        FromTable::WithoutKeyword(v) => v.iter().map(|t| part(&t.relation)).collect(),
    };
    Some((tables, d.selection.as_ref().map(|e| e.to_string())))
}

/// What the definition of a column says of it.
#[derive(Clone, Copy, Debug, PartialEq, Eq, Structural)]
pub enum ColumnRule {
    NotNull,
    Null,
    PrimaryKey,
    Other,
}

/// The parts of a column definition: its name, its type, and what is said of
/// it.
pub type ColumnTexts = (String, String, Vec<ColumnRule>);

/// Column definitions, each as its model.
pub open spec fn column_texts_models(v: Seq<ColumnTexts>) -> Seq<
    (Seq<char>, Seq<char>, Seq<ColumnRule>),
> {
    v.map_values(|c: ColumnTexts| (c.0@, c.1@, c.2@))
}

pub open spec fn table_texts_model(r: Option<(String, Vec<ColumnTexts>)>) -> Option<
    (Seq<char>, Seq<(Seq<char>, Seq<char>, Seq<ColumnRule>)>),
> {
    match r {
        Some(t) => Some((t.0@, column_texts_models(t.1@))),
        None => None,
    }
}

/// The parts that `sqlparser` finds in a `CREATE TABLE`.
pub uninterp spec fn sql_create_table(sql: Seq<char>) -> Option<
    (Seq<char>, Seq<(Seq<char>, Seq<char>, Seq<ColumnRule>)>),
>;

/// Calls `Parser::parse_sql` and renders the parts of a `CREATE TABLE`. The
/// result depends on the text alone, and is there wherever the heading is that of
/// one.
#[verifier::external_body]
pub(crate) fn create_table_texts(sql: &str) -> (r: Option<(String, Vec<ColumnTexts>)>)
    ensures
        table_texts_model(r) == sql_create_table(sql@),
        heading_is(sql@, HeadingModel::CreateTable) ==> r is Some,
{
    let all = Parser::parse_sql(&GenericDialect {}, sql).ok()?;
    let Statement::CreateTable(t) = all.into_iter().next()? else { return None };
    let rule = |o: &ColumnOption| match o {
        ColumnOption::NotNull => ColumnRule::NotNull,
        ColumnOption::Null => ColumnRule::Null,
        ColumnOption::PrimaryKey(_) => ColumnRule::PrimaryKey,
        _ => ColumnRule::Other,
    };
    let columns = t.columns.iter().map(|c| (c.name.to_string(), c.data_type.to_string(), c.options.iter().map(|o| rule(&o.option)).collect())).collect();
    Some((t.name.to_string(), columns))
}

/// The parts of a `CREATE INDEX`: its name, the table and the columns.
pub type IndexTexts = (Option<String>, String, Vec<String>);

pub open spec fn index_texts_model(r: Option<IndexTexts>) -> Option<
    (Option<Seq<char>>, Seq<char>, Seq<Seq<char>>),
> {
    match r {
        Some(t) => Some((optional_text(t.0), t.1@, texts(t.2@))),
        None => None,
    }
}

/// The parts that `sqlparser` finds in a `CREATE INDEX`.
pub uninterp spec fn sql_create_index(sql: Seq<char>) -> Option<
    (Option<Seq<char>>, Seq<char>, Seq<Seq<char>>),
>;

/// Calls `Parser::parse_sql` and renders the parts of a `CREATE INDEX`. The
/// result depends on the text alone, and is there wherever the heading is that of
/// one.
#[verifier::external_body]
pub(crate) fn create_index_texts(sql: &str) -> (r: Option<IndexTexts>)
    ensures
        index_texts_model(r) == sql_create_index(sql@),
        heading_is(sql@, HeadingModel::CreateIndex) ==> r is Some,
{
    let all = Parser::parse_sql(&GenericDialect {}, sql).ok()?;
    let Statement::CreateIndex(i) = all.into_iter().next()? else { return None };
    let columns = i.columns.iter().map(|c| c.column.expr.to_string()).collect();
    Some((i.name.map(|n| n.to_string()), i.table_name.to_string(), columns))
}

/// The table that `sqlparser` finds in an `ANALYZE`.
pub uninterp spec fn sql_analyze(sql: Seq<char>) -> Option<Seq<char>>;

/// Calls `Parser::parse_sql` and gives the table of an `ANALYZE`. The result
/// depends on the text alone.
#[verifier::external_body]
pub(crate) fn analyze_table(sql: &str) -> (r: Option<String>)
    ensures
        optional_text(r) == sql_analyze(sql@),
{
    let all = Parser::parse_sql(&GenericDialect {}, sql).ok()?;
    let Statement::Analyze(a) = all.into_iter().next()? else { return None };
    a.table_name.map(|n| n.to_string())
}

} // verus!
