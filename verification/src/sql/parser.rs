//! Parsed statements, and how a text is parsed into one.
//!
//! Expressions are kept as texts: a predicate, a value or an assignment is what
//! the parser renders for it.

use vstd::prelude::*;
use crate::error::{DatabaseError, Fault};
use crate::execution::aggregate::optional_text;
use crate::sql::source::{
    analyze_table, column_texts_models, create_index_texts, create_table_texts, delete_texts,
    group_model, insert_texts, item_models, join_natural, join_on, join_using, limit_model,
    limits_model, plain_join, select_groups, select_limits, select_tables, select_texts,
    select_texts_model, special_join, sql_analyze, sql_create_index, sql_create_table, sql_delete,
    sql_groups, sql_heading, sql_insert, sql_join_natural, sql_join_on, sql_join_using, sql_limits,
    sql_plain_join, sql_select_texts, sql_special_join, sql_tables, sql_update, statement_heading,
    table_model, table_rows, update_texts, ColumnRule, ColumnTexts, Heading, HeadingModel,
    IndexTexts, InsertSource, InsertSourceModel, ItemWord, JoinWord, LimitText, LimitTextModel,
    LimitTexts, LimitTextsModel, SelectTexts, SelectTextsModel, TableText,
};
use crate::text::{join2, parse_unsigned, texts, unsigned_reading};

verus! {

/// Which unmatched rows a join keeps, with nulls for the other side.
#[derive(Clone, Copy, Debug, PartialEq, Eq, Structural)]
pub enum JoinKind {
    Inner,
    Left,
    Right,
    FullOuter,
}

/// A join on columns of one name: those listed, or those that both sides have.
#[derive(Debug)]
pub enum EquiMatch {
    Using(Vec<String>),
    Natural,
}

/// A join on columns of one name, as contracts speak of it.
pub enum EquiModel {
    Using(Seq<Seq<char>>),
    Natural,
}

impl View for EquiMatch {
    type V = EquiModel;

    open spec fn view(&self) -> EquiModel {
        match *self {
            EquiMatch::Using(v) => EquiModel::Using(texts(v@)),
            EquiMatch::Natural => EquiModel::Natural,
        }
    }
}

/// A join on columns of one name, where there is one.
pub open spec fn equi_model(e: Option<EquiMatch>) -> Option<EquiModel> {
    match e {
        Some(m) => Some(m@),
        None => None,
    }
}

/// A table that is joined, and on what.
#[derive(Debug)]
pub struct JoinClause {
    pub table: String,
    pub alias: Option<String>,
    pub condition: Option<String>,
    pub equi_match: Option<EquiMatch>,
    pub kind: JoinKind,
}

/// A joined table as contracts speak of it.
pub struct JoinModel {
    pub table: Seq<char>,
    pub alias: Option<Seq<char>>,
    pub condition: Option<Seq<char>>,
    pub equi: Option<EquiModel>,
    pub kind: JoinKind,
}

impl View for JoinClause {
    type V = JoinModel;

    open spec fn view(&self) -> JoinModel {
        JoinModel {
            table: self.table@,
            alias: optional_text(self.alias),
            condition: optional_text(self.condition),
            equi: equi_model(self.equi_match),
            kind: self.kind,
        }
    }
}

/// Some joins, each as its model.
pub open spec fn join_models(v: Seq<JoinClause>) -> Seq<JoinModel> {
    v.map_values(|j: JoinClause| j@)
}

/// `SELECT`.
#[derive(Debug)]
pub struct SelectStatement {
    /// The columns as written; `*` for all of them.
    pub columns: Vec<String>,
    pub from: String,
    pub from_alias: Option<String>,
    pub joins: Vec<JoinClause>,
    pub where_clause: Option<String>,
    pub group_by: Vec<String>,
    pub having: Option<String>,
    pub order_by: Option<String>,
    pub distinct: bool,
    pub limit: Option<usize>,
    pub offset: Option<usize>,
}

/// `SELECT` as contracts speak of it.
pub struct SelectModel {
    pub columns: Seq<Seq<char>>,
    pub from: Seq<char>,
    pub from_alias: Option<Seq<char>>,
    pub joins: Seq<JoinModel>,
    pub where_clause: Option<Seq<char>>,
    pub group_by: Seq<Seq<char>>,
    pub having: Option<Seq<char>>,
    pub order_by: Option<Seq<char>>,
    pub distinct: bool,
    pub limit: Option<usize>,
    pub offset: Option<usize>,
}

impl View for SelectStatement {
    type V = SelectModel;

    open spec fn view(&self) -> SelectModel {
        SelectModel {
            columns: texts(self.columns@),
            from: self.from@,
            from_alias: optional_text(self.from_alias),
            joins: join_models(self.joins@),
            where_clause: optional_text(self.where_clause),
            group_by: texts(self.group_by@),
            having: optional_text(self.having),
            order_by: optional_text(self.order_by),
            distinct: self.distinct,
            limit: self.limit,
            offset: self.offset,
        }
    }
}

/// Lists of texts, each as its model.
pub open spec fn text_rows(v: Seq<Vec<String>>) -> Seq<Seq<Seq<char>>> {
    v.map_values(|r: Vec<String>| texts(r@))
}

/// Pairs of texts, each as its model.
pub open spec fn text_pairs(v: Seq<(String, String)>) -> Seq<(Seq<char>, Seq<char>)> {
    v.map_values(|p: (String, String)| (p.0@, p.1@))
}

/// `INSERT`.
#[derive(Debug)]
pub struct InsertStatement {
    pub table: String,
    pub columns: Vec<String>,
    pub values: Vec<Vec<String>>,
}

/// `INSERT` as contracts speak of it.
pub struct InsertModel {
    pub table: Seq<char>,
    pub columns: Seq<Seq<char>>,
    pub values: Seq<Seq<Seq<char>>>,
}

impl View for InsertStatement {
    type V = InsertModel;

    open spec fn view(&self) -> InsertModel {
        InsertModel {
            table: self.table@,
            columns: texts(self.columns@),
            values: text_rows(self.values@),
        }
    }
}

/// `UPDATE`.
#[derive(Debug)]
pub struct UpdateStatement {
    pub table: String,
    pub assignments: Vec<(String, String)>,
    pub where_clause: Option<String>,
}

/// `UPDATE` as contracts speak of it.
pub struct UpdateModel {
    pub table: Seq<char>,
    pub assignments: Seq<(Seq<char>, Seq<char>)>,
    pub where_clause: Option<Seq<char>>,
}

impl View for UpdateStatement {
    type V = UpdateModel;

    open spec fn view(&self) -> UpdateModel {
        UpdateModel {
            table: self.table@,
            assignments: text_pairs(self.assignments@),
            where_clause: optional_text(self.where_clause),
        }
    }
}

/// `DELETE`.
#[derive(Debug)]
pub struct DeleteStatement {
    pub table: String,
    pub where_clause: Option<String>,
}

/// `DELETE` as contracts speak of it.
pub struct DeleteModel {
    pub table: Seq<char>,
    pub where_clause: Option<Seq<char>>,
}

impl View for DeleteStatement {
    type V = DeleteModel;

    open spec fn view(&self) -> DeleteModel {
        DeleteModel { table: self.table@, where_clause: optional_text(self.where_clause) }
    }
}

/// A column of `CREATE TABLE`.
#[derive(Debug)]
pub struct ColumnDef {
    pub name: String,
    /// The type as written.
    pub data_type: String,
    pub nullable: bool,
    pub primary_key: bool,
}

/// A column of `CREATE TABLE` as contracts speak of it.
pub struct ColumnDefModel {
    pub name: Seq<char>,
    pub data_type: Seq<char>,
    pub nullable: bool,
    pub primary_key: bool,
}

impl View for ColumnDef {
    type V = ColumnDefModel;

    open spec fn view(&self) -> ColumnDefModel {
        ColumnDefModel {
            name: self.name@,
            data_type: self.data_type@,
            nullable: self.nullable,
            primary_key: self.primary_key,
        }
    }
}

/// Some columns, each as its model.
pub open spec fn column_def_models(v: Seq<ColumnDef>) -> Seq<ColumnDefModel> {
    v.map_values(|c: ColumnDef| c@)
}

/// `CREATE TABLE`.
#[derive(Debug)]
pub struct CreateTableStatement {
    pub name: String,
    pub columns: Vec<ColumnDef>,
}

/// `CREATE TABLE` as contracts speak of it.
pub struct CreateTableModel {
    pub name: Seq<char>,
    pub columns: Seq<ColumnDefModel>,
}

impl View for CreateTableStatement {
    type V = CreateTableModel;

    open spec fn view(&self) -> CreateTableModel {
        CreateTableModel { name: self.name@, columns: column_def_models(self.columns@) }
    }
}

/// `CREATE INDEX` on one column.
#[derive(Debug)]
pub struct CreateIndexStatement {
    pub name: String,
    pub table: String,
    pub column: String,
}

/// `CREATE INDEX` as contracts speak of it.
pub struct CreateIndexModel {
    pub name: Seq<char>,
    pub table: Seq<char>,
    pub column: Seq<char>,
}

impl View for CreateIndexStatement {
    type V = CreateIndexModel;

    open spec fn view(&self) -> CreateIndexModel {
        CreateIndexModel { name: self.name@, table: self.table@, column: self.column@ }
    }
}

/// `ANALYZE`.
#[derive(Debug)]
pub struct AnalyzeStatement {
    pub table: String,
}

/// A statement.
#[derive(Debug)]
pub enum SQLStatement {
    Select(SelectStatement),
    Insert(InsertStatement),
    Update(UpdateStatement),
    Delete(DeleteStatement),
    CreateTable(CreateTableStatement),
    CreateIndex(CreateIndexStatement),
    Analyze(AnalyzeStatement),
}

/// A statement as contracts speak of it.
pub enum StatementModel {
    Select(SelectModel),
    Insert(InsertModel),
    Update(UpdateModel),
    Delete(DeleteModel),
    CreateTable(CreateTableModel),
    CreateIndex(CreateIndexModel),
    Analyze(Seq<char>),
}

impl View for SQLStatement {
    type V = StatementModel;

    open spec fn view(&self) -> StatementModel {
        match *self {
            SQLStatement::Select(s) => StatementModel::Select(s@),
            SQLStatement::Insert(s) => StatementModel::Insert(s@),
            SQLStatement::Update(s) => StatementModel::Update(s@),
            SQLStatement::Delete(s) => StatementModel::Delete(s@),
            SQLStatement::CreateTable(s) => StatementModel::CreateTable(s@),
            SQLStatement::CreateIndex(s) => StatementModel::CreateIndex(s@),
            SQLStatement::Analyze(s) => StatementModel::Analyze(s.table@),
        }
    }
}

/// A parse as its model.
pub open spec fn statement_result(r: Result<SQLStatement, DatabaseError>) -> Result<
    StatementModel,
    Fault,
> {
    match r {
        Ok(s) => Ok(s@),
        Err(e) => Err(e@),
    }
}

// ---- from parts to statements ----------------------------------------------------------

/// The columns of a `SELECT`: every wildcard, qualified or not, stands for all columns.
pub open spec fn column_texts(items: Seq<(ItemWord, Seq<char>)>) -> Seq<Seq<char>> {
    items.map_values(
        |i: (ItemWord, Seq<char>)|
            match i.0 {
                ItemWord::Wildcard => "*"@,
                ItemWord::QualifiedWildcard => "*"@,
                ItemWord::Other => i.1,
            },
    )
}

/// The `k`-th of a list of lists, or nothing.
pub open spec fn row_or_none<T>(v: Seq<Seq<T>>, k: int) -> Seq<T> {
    if 0 <= k < v.len() { v[k] } else { Seq::empty() }
}

/// What a join says of itself: its operator, the condition behind `ON`, the columns
/// behind `USING`, and whether it is `NATURAL`.
pub struct JoinText {
    pub word: JoinWord,
    pub on: Option<String>,
    pub using: Option<Vec<String>>,
    pub natural: bool,
}

/// What a join says of itself, as contracts speak of it.
pub struct JoinTextModel {
    pub word: JoinWord,
    pub on: Option<Seq<char>>,
    pub using: Option<Seq<Seq<char>>>,
    pub natural: bool,
}

impl View for JoinText {
    type V = JoinTextModel;

    open spec fn view(&self) -> JoinTextModel {
        JoinTextModel {
            word: self.word,
            on: optional_text(self.on),
            using: group_model(self.using),
            natural: self.natural,
        }
    }
}

/// What some joins say of themselves, each as its model.
pub open spec fn join_text_models(v: Seq<JoinText>) -> Seq<JoinTextModel> {
    v.map_values(|j: JoinText| j@)
}

/// Which unmatched rows the operator of a join keeps.
pub open spec fn kind_of(word: JoinWord) -> JoinKind {
    match word {
        JoinWord::Left => JoinKind::Left,
        JoinWord::LeftOuter => JoinKind::Left,
        JoinWord::Right => JoinKind::Right,
        JoinWord::RightOuter => JoinKind::Right,
        JoinWord::FullOuter => JoinKind::FullOuter,
        _ => JoinKind::Inner,
    }
}

/// Whether a condition can stand behind a join of this operator.
pub open spec fn takes_condition(word: JoinWord) -> bool {
    match word {
        JoinWord::CrossApply => false,
        JoinWord::OuterApply => false,
        JoinWord::ArrayJoin => false,
        JoinWord::LeftArrayJoin => false,
        JoinWord::InnerArrayJoin => false,
        _ => true,
    }
}

/// The condition of a join: the one behind `ON`, whatever the operator that takes it.
pub open spec fn condition_of(word: JoinWord, on: Option<Seq<char>>) -> Option<Seq<char>> {
    if takes_condition(word) { on } else { None }
}

/// The columns that the sides of a join are matched by.
pub open spec fn equi_of(using: Option<Seq<Seq<char>>>, natural: bool) -> Option<EquiModel> {
    match using {
        Some(v) => Some(EquiModel::Using(v)),
        None => if natural {
            Some(EquiModel::Natural)
        } else {
            None
        },
    }
}

/// The join of a table.
pub open spec fn join_of(table: (Seq<char>, Option<Seq<char>>), text: JoinTextModel) -> JoinModel {
    JoinModel {
        table: table.0,
        alias: table.1,
        condition: condition_of(text.word, text.on),
        equi: equi_of(text.using, text.natural),
        kind: kind_of(text.word),
    }
}

/// The joins of the tables behind the first.
pub open spec fn joins_of(
    tables: Seq<(Seq<char>, Option<Seq<char>>)>,
    said: Seq<JoinTextModel>,
) -> Seq<JoinModel> {
    Seq::new(said.len(), |k: int| join_of(tables[k + 1], said[k]))
}

/// The operator of a join, of the two readings of which one finds it.
pub open spec fn either_word(plain: Option<JoinWord>, special: Option<JoinWord>) -> JoinWord {
    match (plain, special) {
        (Some(w), _) => w,
        (None, Some(w)) => w,
        (None, None) => JoinWord::Join,
    }
}

/// What the `k`-th join of the first item behind `FROM` says of itself.
pub open spec fn join_said(sql: Seq<char>, k: usize) -> JoinTextModel {
    JoinTextModel {
        word: either_word(sql_plain_join(sql, 0, k), sql_special_join(sql, 0, k)),
        on: sql_join_on(sql, 0, k),
        using: sql_join_using(sql, 0, k),
        natural: sql_join_natural(sql, 0, k) == Some(true),
    }
}

/// What the joins of the first item behind `FROM` say of themselves: one for each table
/// but the first.
pub open spec fn joins_said(sql: Seq<char>) -> Seq<JoinTextModel> {
    let n = row_or_none(sql_tables(sql), 0).len();
    Seq::new(if n > 0 { (n - 1) as nat } else { 0 }, |k: int| join_said(sql, k as usize))
}

/// The size that an expression gives: that of a number literal that fits.
pub open spec fn size_reading(s: Option<LimitTextModel>) -> Option<usize> {
    match s {
        Some(LimitTextModel::Number(t)) => match unsigned_reading(t, usize::MAX as int) {
            Some(n) => Some(n as usize),
            None => None,
        },
        _ => None,
    }
}

/// The expression behind `LIMIT` that counts: that of a clause with `LIMIT` and
/// `OFFSET`.
pub open spec fn limit_said(l: Option<LimitTextsModel>) -> Option<LimitTextModel> {
    match l {
        Some(LimitTextsModel::LimitOffset(limit, _)) => limit,
        _ => None,
    }
}

/// The expression behind `OFFSET` that counts: that of a clause with `LIMIT` and
/// `OFFSET`.
pub open spec fn offset_said(l: Option<LimitTextsModel>) -> Option<LimitTextModel> {
    match l {
        Some(LimitTextsModel::LimitOffset(_, offset)) => offset,
        _ => None,
    }
}

/// The rows that the source of an `INSERT` gives: those of `VALUES`.
pub open spec fn rows_given(source: InsertSourceModel) -> Seq<Seq<Seq<char>>> {
    match source {
        InsertSourceModel::Values(v) => v,
        _ => Seq::empty(),
    }
}

/// The `SELECT` of given parts.
pub open spec fn select_of(
    t: SelectTextsModel,
    groups: Option<Seq<Seq<char>>>,
    tables: Seq<Seq<(Seq<char>, Option<Seq<char>>)>>,
    said: Seq<JoinTextModel>,
    limits: Option<LimitTextsModel>,
) -> SelectModel {
    let first = row_or_none(tables, 0);
    SelectModel {
        columns: column_texts(t.items),
        from: if first.len() > 0 { first[0].0 } else { Seq::empty() },
        from_alias: if first.len() > 0 { first[0].1 } else { None },
        joins: joins_of(first, said),
        where_clause: t.where_clause,
        group_by: match groups {
            Some(g) => g,
            None => Seq::empty(),
        },
        having: t.having,
        order_by: t.order_by,
        distinct: t.distinct,
        limit: size_reading(limit_said(limits)),
        offset: size_reading(offset_said(limits)),
    }
}

/// What the definition of a column says, up to its `n`-th word: whether it is
/// nullable, and whether it is a primary key. A primary key is not nullable.
pub open spec fn ruled(rules: Seq<ColumnRule>, n: int) -> (bool, bool)
    decreases n,
{
    if n <= 0 || n > rules.len() {
        (true, false)
    } else {
        let (nullable, primary_key) = ruled(rules, n - 1);
        match rules[n - 1] {
            ColumnRule::NotNull => (false, primary_key),
            ColumnRule::Null => (true, primary_key),
            ColumnRule::PrimaryKey => (false, true),
            ColumnRule::Other => (nullable, primary_key),
        }
    }
}

/// The columns of a `CREATE TABLE`.
pub open spec fn column_defs(v: Seq<(Seq<char>, Seq<char>, Seq<ColumnRule>)>) -> Seq<ColumnDefModel> {
    v.map_values(
        |c: (Seq<char>, Seq<char>, Seq<ColumnRule>)|
            ColumnDefModel {
                name: c.0,
                data_type: c.1,
                nullable: ruled(c.2, c.2.len() as int).0,
                primary_key: ruled(c.2, c.2.len() as int).1,
            },
    )
}

/// The `DELETE` of given parts.
pub open spec fn delete_of(tables: Seq<Seq<char>>, where_clause: Option<Seq<char>>) -> Result<
    StatementModel,
    Fault,
> {
    if tables.len() == 0 {
        Err(Fault::Parse("DELETE requires a table"@))
    } else {
        Ok(StatementModel::Delete(DeleteModel { table: tables[0], where_clause }))
    }
}

/// The `CREATE INDEX` of given parts; of several columns the first counts.
pub open spec fn index_of(
    name: Option<Seq<char>>,
    table: Seq<char>,
    columns: Seq<Seq<char>>,
) -> Result<StatementModel, Fault> {
    match name {
        None => Err(Fault::Parse("CREATE INDEX requires a name"@)),
        Some(n) => if columns.len() == 0 {
            Err(Fault::Parse("CREATE INDEX requires a column"@))
        } else {
            Ok(
                StatementModel::CreateIndex(
                    CreateIndexModel { name: n, table, column: columns[0] },
                ),
            )
        },
    }
}

/// The `ANALYZE` of a table.
pub open spec fn analyze_of(table: Option<Seq<char>>) -> Result<StatementModel, Fault> {
    match table {
        None => Err(Fault::Parse("ANALYZE requires a table"@)),
        Some(t) => Ok(StatementModel::Analyze(t)),
    }
}

/// The statement that a text holds.
pub open spec fn parsed(sql: Seq<char>) -> Result<StatementModel, Fault> {
    match sql_heading(sql) {
        Err(e) => Err(Fault::Parse(e)),
        Ok(None) => Err(Fault::Parse("Empty SQL statement"@)),
        Ok(Some(heading)) => match heading {
            HeadingModel::Select => Ok(
                StatementModel::Select(
                    select_of(
                        sql_select_texts(sql)->0,
                        sql_groups(sql),
                        sql_tables(sql),
                        joins_said(sql),
                        sql_limits(sql),
                    ),
                ),
            ),
            HeadingModel::OtherQuery(s) => Err(
                Fault::Parse("Only simple SELECT queries are supported, got: "@ + s),
            ),
            HeadingModel::Insert => {
                let t = sql_insert(sql)->0;
                Ok(
                    StatementModel::Insert(
                        InsertModel { table: t.0, columns: t.1, values: rows_given(t.2) },
                    ),
                )
            },
            HeadingModel::Update => {
                let t = sql_update(sql)->0;
                Ok(
                    StatementModel::Update(
                        UpdateModel { table: t.0, assignments: t.1, where_clause: t.2 },
                    ),
                )
            },
            HeadingModel::Delete => {
                let t = sql_delete(sql)->0;
                delete_of(t.0, t.1)
            },
            HeadingModel::CreateTable => {
                let t = sql_create_table(sql)->0;
                Ok(
                    StatementModel::CreateTable(
                        CreateTableModel { name: t.0, columns: column_defs(t.1) },
                    ),
                )
            },
            HeadingModel::CreateIndex => {
                let t = sql_create_index(sql)->0;
                index_of(t.0, t.1, t.2)
            },
            HeadingModel::Analyze => analyze_of(sql_analyze(sql)),
            HeadingModel::Other(s) => Err(Fault::Parse("Unsupported statement: "@ + s)),
        },
    }
}

/// Parses statements.
pub struct SQLParser;

fn no_statement() -> (r: DatabaseError)
    ensures
        r@ == Fault::Parse("Empty SQL statement"@),
{
    DatabaseError::ParseError("Empty SQL statement".to_owned())
}

impl SQLParser {
    /// Parses a statement.
    pub fn parse(sql: &str) -> (r: Result<SQLStatement, DatabaseError>)
        ensures
            statement_result(r) == parsed(sql@),
    {
        let heading = match statement_heading(sql) {
            Ok(Some(h)) => h,
            Ok(None) => {
                return Err(no_statement());
            },
            Err(e) => {
                return Err(DatabaseError::ParseError(e));
            },
        };
        match heading {
            Heading::Select => match select_texts(sql) {
                Some(t) => {
                    let tables = select_tables(sql);
                    let said = SQLParser::read_joins(sql, &tables);
                    Ok(
                        SQLStatement::Select(
                            SQLParser::convert_query(
                                t,
                                select_groups(sql),
                                tables,
                                said,
                                select_limits(sql),
                            ),
                        ),
                    )
                },
                None => Err(no_statement()),
            },
            Heading::OtherQuery(s) => Err(
                DatabaseError::ParseError(
                    join2("Only simple SELECT queries are supported, got: ", s.as_str()),
                ),
            ),
            Heading::Insert => match insert_texts(sql) {
                Some((table, columns, source)) => Ok(
                    SQLStatement::Insert(SQLParser::convert_insert(table, columns, source)),
                ),
                None => Err(no_statement()),
            },
            Heading::Update => match update_texts(sql) {
                Some((table, assignments, where_clause)) => Ok(
                    SQLStatement::Update(UpdateStatement { table, assignments, where_clause }),
                ),
                None => Err(no_statement()),
            },
            Heading::Delete => match delete_texts(sql) {
                Some((tables, where_clause)) => SQLParser::convert_delete(tables, where_clause),
                None => Err(no_statement()),
            },
            Heading::CreateTable => match create_table_texts(sql) {
                Some((name, columns)) => Ok(
                    SQLStatement::CreateTable(SQLParser::convert_create_table(name, columns)),
                ),
                None => Err(no_statement()),
            },
            Heading::CreateIndex => match create_index_texts(sql) {
                Some(t) => SQLParser::convert_create_index(t),
                None => Err(no_statement()),
            },
            Heading::Analyze => SQLParser::convert_analyze(analyze_table(sql)),
            Heading::Other(s) => Err(
                DatabaseError::ParseError(join2("Unsupported statement: ", s.as_str())),
            ),
        }
    }

    /// The `SELECT` of given parts.
    pub fn convert_query(
        t: SelectTexts,
        groups: Option<Vec<String>>,
        tables: Vec<Vec<TableText>>,
        said: Vec<JoinText>,
        limits: Option<LimitTexts>,
    ) -> (r: SelectStatement)
        requires
            said@.len() == 0 || said@.len() < row_or_none(table_rows(tables@), 0).len(),
        ensures
            r@ == select_of(
                select_texts_model(Some(t))->0,
                group_model(groups),
                table_rows(tables@),
                join_text_models(said@),
                limits_model(limits),
            ),
    {
        let (items, where_clause, having, order_by, distinct) = t;
        let mut columns: Vec<String> = Vec::new();
        let ghost models = item_models(items@);
        let mut i: usize = 0;
        while i < items.len()
            invariant
                i <= items@.len(),
                models == item_models(items@),
                texts(columns@) == column_texts(models).take(i as int),
            decreases items@.len() - i,
        {
            let ghost before = columns@;
            let text = match items[i].0 {
                ItemWord::Wildcard => "*".to_owned(),
                ItemWord::QualifiedWildcard => "*".to_owned(),
                ItemWord::Other => items[i].1.clone(),
            };
            columns.push(text);
            assert(models[i as int] == (items@[i as int].0, items@[i as int].1@));
            assert(texts(columns@) =~= texts(before).push(text@));
            assert(texts(columns@) =~= column_texts(models).take(i + 1));
            i = i + 1;
        }
        assert(texts(columns@) =~= column_texts(models));
        let (from, from_alias) = SQLParser::first_table(&tables);
        let joins = SQLParser::convert_joins(&tables, &said);
        let group_by = match groups {
            Some(g) => g,
            None => Vec::new(),
        };
        assert(groups is None ==> texts(group_by@) =~= Seq::<Seq<char>>::empty());
        let (limit, offset) = match limits {
            Some(LimitTexts::LimitOffset(l, o)) => (
                SQLParser::read_size(&l),
                SQLParser::read_size(&o),
            ),
            _ => (None, None),
        };
        SelectStatement {
            columns,
            from,
            from_alias,
            joins,
            where_clause,
            group_by,
            having,
            order_by,
            distinct,
            limit,
            offset,
        }
    }

    fn read_size(s: &Option<LimitText>) -> (r: Option<usize>)
        ensures
            r == size_reading(limit_model(*s)),
    {
        match s {
            Some(LimitText::Number(t)) => match parse_unsigned(t.as_str(), usize::MAX as u64) {
                Some(n) => Some(n as usize),
                None => None,
            },
            _ => None,
        }
    }

    /// The `INSERT` of given parts.
    pub fn convert_insert(table: String, columns: Vec<String>, source: InsertSource) -> (r:
        InsertStatement)
        ensures
            r@ == (InsertModel {
                table: table@,
                columns: texts(columns@),
                values: rows_given(source@),
            }),
    {
        let values = match source {
            InsertSource::Values(v) => v,
            _ => Vec::new(),
        };
        assert(!(source is Values) ==> text_rows(values@) =~= Seq::<Seq<Seq<char>>>::empty());
        InsertStatement { table, columns, values }
    }

    /// The condition of a join: the one behind `ON`, whatever the operator that takes it.
    pub fn join_condition(word: JoinWord, on: Option<String>) -> (r: Option<String>)
        ensures
            optional_text(r) == condition_of(word, optional_text(on)),
    {
        match word {
            JoinWord::CrossApply
            | JoinWord::OuterApply
            | JoinWord::ArrayJoin
            | JoinWord::LeftArrayJoin
            | JoinWord::InnerArrayJoin => None,
            _ => on,
        }
    }

    fn read_joins(sql: &str, tables: &Vec<Vec<TableText>>) -> (r: Vec<JoinText>)
        requires
            table_rows(tables@) == sql_tables(sql@),
        ensures
            join_text_models(r@) == joins_said(sql@),
            r@.len() == 0 || r@.len() < row_or_none(table_rows(tables@), 0).len(),
    {
        let ghost want = joins_said(sql@);
        let ghost first = row_or_none(table_rows(tables@), 0);
        let mut out: Vec<JoinText> = Vec::new();
        let total: usize = if tables.len() > 0 { tables[0].len() } else { 0 };
        assert(total == first.len());
        let mut k: usize = 0;
        while k + 1 < total
            invariant
                total == first.len(),
                k == 0 || k < total,
                want == joins_said(sql@),
                first == row_or_none(sql_tables(sql@), 0),
                out@.len() == k,
                forall|i: int| 0 <= i < k ==> (#[trigger] out@[i])@ == want[i],
            decreases total - k,
        {
            let word = match (plain_join(sql, 0, k), special_join(sql, 0, k)) {
                (Some(w), _) => w,
                (None, Some(w)) => w,
                (None, None) => JoinWord::Join,
            };
            let natural = match join_natural(sql, 0, k) {
                Some(b) => b,
                None => false,
            };
            out.push(
                JoinText { word, on: join_on(sql, 0, k), using: join_using(sql, 0, k), natural },
            );
            k = k + 1;
        }
        assert(join_text_models(out@) =~= want);
        out
    }

    /// The first table behind `FROM`, and its alias.
    fn first_table(tables: &Vec<Vec<TableText>>) -> (r: (String, Option<String>))
        ensures
            ({
                let first = row_or_none(table_rows(tables@), 0);
                &&& r.0@ == (if first.len() > 0 {
                    first[0].0
                } else {
                    Seq::empty()
                })
                &&& optional_text(r.1) == (if first.len() > 0 {
                    first[0].1
                } else {
                    None
                })
            }),
    {
        if tables.len() > 0 && tables[0].len() > 0 {
            let t = &tables[0][0];
            assert(table_rows(tables@)[0][0] == table_model(*t));
            (t.0.clone(), t.1.clone())
        } else {
            let none = String::new();
            assert(none@ =~= Seq::<char>::empty());
            (none, None)
        }
    }

    fn convert_join(table: &TableText, said: &JoinText) -> (r: JoinClause)
        ensures
            r@ == join_of(table_model(*table), said@),
    {
        let equi_match = match &said.using {
            Some(v) => {
                let names = v.clone();
                assert(texts(names@) =~= texts(v@));
                Some(EquiMatch::Using(names))
            },
            None => if said.natural {
                Some(EquiMatch::Natural)
            } else {
                None
            },
        };
        let kind = match said.word {
            JoinWord::Left => JoinKind::Left,
            JoinWord::LeftOuter => JoinKind::Left,
            JoinWord::Right => JoinKind::Right,
            JoinWord::RightOuter => JoinKind::Right,
            JoinWord::FullOuter => JoinKind::FullOuter,
            _ => JoinKind::Inner,
        };
        JoinClause {
            table: table.0.clone(),
            alias: table.1.clone(),
            condition: SQLParser::join_condition(said.word, said.on.clone()),
            equi_match,
            kind,
        }
    }

    fn convert_joins(tables: &Vec<Vec<TableText>>, said: &Vec<JoinText>) -> (r: Vec<JoinClause>)
        requires
            said@.len() == 0 || said@.len() < row_or_none(table_rows(tables@), 0).len(),
        ensures
            join_models(r@) == joins_of(
                row_or_none(table_rows(tables@), 0),
                join_text_models(said@),
            ),
    {
        let ghost first = row_or_none(table_rows(tables@), 0);
        let ghost want = joins_of(first, join_text_models(said@));
        let mut out: Vec<JoinClause> = Vec::new();
        let mut k: usize = 0;
        while k < said.len()
            invariant
                k <= said@.len(),
                said@.len() == 0 || said@.len() < first.len(),
                first == row_or_none(table_rows(tables@), 0),
                want == joins_of(first, join_text_models(said@)),
                out@.len() == k,
                forall|i: int| 0 <= i < k ==> (#[trigger] out@[i])@ == want[i],
            decreases said@.len() - k,
        {
            assert(table_rows(tables@)[0] == first);
            assert(first[k + 1] == table_model(tables@[0]@[k + 1]));
            assert(join_text_models(said@)[k as int] == said@[k as int]@);
            out.push(SQLParser::convert_join(&tables[0][k + 1], &said[k]));
            k = k + 1;
        }
        assert(join_models(out@) =~= want);
        out
    }

    /// The `DELETE` of given parts.
    pub fn convert_delete(tables: Vec<String>, where_clause: Option<String>) -> (r: Result<
        SQLStatement,
        DatabaseError,
    >)
        ensures
            statement_result(r) == delete_of(texts(tables@), optional_text(where_clause)),
    {
        if tables.len() == 0 {
            return Err(DatabaseError::ParseError("DELETE requires a table".to_owned()));
        }
        Ok(SQLStatement::Delete(DeleteStatement { table: tables[0].clone(), where_clause }))
    }

    /// The `CREATE TABLE` of given parts.
    pub fn convert_create_table(name: String, columns: Vec<ColumnTexts>) -> (r: CreateTableStatement)
        ensures
            r@ == (CreateTableModel {
                name: name@,
                columns: column_defs(column_texts_models(columns@)),
            }),
    {
        let ghost models = column_texts_models(columns@);
        let mut defs: Vec<ColumnDef> = Vec::new();
        let mut i: usize = 0;
        while i < columns.len()
            invariant
                i <= columns@.len(),
                models == column_texts_models(columns@),
                column_def_models(defs@) == column_defs(models).take(i as int),
            decreases columns@.len() - i,
        {
            let ghost before = defs@;
            let c = &columns[i];
            let (nullable, primary_key) = SQLParser::read_rules(&c.2);
            let def = ColumnDef {
                name: c.0.clone(),
                data_type: c.1.clone(),
                nullable,
                primary_key,
            };
            defs.push(def);
            assert(models[i as int] == (c.0@, c.1@, c.2@));
            assert(column_def_models(defs@) =~= column_def_models(before).push(def@));
            assert(column_def_models(defs@) =~= column_defs(models).take(i + 1));
            i = i + 1;
        }
        assert(column_def_models(defs@) =~= column_defs(models));
        CreateTableStatement { name, columns: defs }
    }

    fn read_rules(rules: &Vec<ColumnRule>) -> (r: (bool, bool))
        ensures
            r == ruled(rules@, rules@.len() as int),
    {
        let mut nullable = true;
        let mut primary_key = false;
        let mut i: usize = 0;
        while i < rules.len()
            invariant
                i <= rules@.len(),
                (nullable, primary_key) == ruled(rules@, i as int),
            decreases rules@.len() - i,
        {
            match rules[i] {
                ColumnRule::NotNull => {
                    nullable = false;
                },
                ColumnRule::Null => {
                    nullable = true;
                },
                ColumnRule::PrimaryKey => {
                    primary_key = true;
                    nullable = false;
                },
                ColumnRule::Other => {},
            }
            i = i + 1;
        }
        (nullable, primary_key)
    }

    /// The `CREATE INDEX` of given parts.
    pub fn convert_create_index(t: IndexTexts) -> (r: Result<SQLStatement, DatabaseError>)
        ensures
            statement_result(r) == index_of(optional_text(t.0), t.1@, texts(t.2@)),
    {
        match t.0 {
            None => Err(DatabaseError::ParseError("CREATE INDEX requires a name".to_owned())),
            Some(name) => {
                if t.2.len() == 0 {
                    return Err(
                        DatabaseError::ParseError("CREATE INDEX requires a column".to_owned()),
                    );
                }
                Ok(
                    SQLStatement::CreateIndex(
                        CreateIndexStatement { name, table: t.1, column: t.2[0].clone() },
                    ),
                )
            },
        }
    }

    /// The `ANALYZE` of a table.
    pub fn convert_analyze(table: Option<String>) -> (r: Result<SQLStatement, DatabaseError>)
        ensures
            statement_result(r) == analyze_of(optional_text(table)),
    {
        match table {
            None => Err(DatabaseError::ParseError("ANALYZE requires a table".to_owned())),
            Some(t) => Ok(SQLStatement::Analyze(AnalyzeStatement { table: t })),
        }
    }
}

} // verus!
