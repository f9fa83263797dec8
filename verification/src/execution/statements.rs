//! Statements from text to effect.
//!
//! A statement that changes something takes two steps, so that what it changes can
//! be logged between them: the first checks and buffers, and names the record to
//! log; the second makes the change. Where logging fails, the statement is
//! cancelled instead.

use vstd::prelude::*;
use crate::error::{DatabaseError, Fault};
use crate::execution::catalog::{registered, table_named, Catalog, SchemaModel, TableSchema};
use crate::execution::changes::{
    delete_staged, insert_staged, insertions_are_buffered, removals_are_buffered,
    replacements_are_buffered, staged_rows, update_staged, Outcome,
};
use crate::execution::definitions::{
    analyzed, built_index, index_target, new_schema, rows_indexed, schema_for, with_index,
};
use crate::execution::executor::{new_db, Db, QueryExecutor};
use crate::execution::lock_manager::{acquired, LockKey, LockMode};
use crate::execution::mvcc_store::{optional_bytes, target, with_table, WriteOp};
use crate::execution::oltp::{
    aborted, begun, buffer_of, committed, last_write, new_engine, read_by, with_write, Engine,
    OLTPEngine,
};
use crate::execution::operators::{data, Datum, Value};
use crate::execution::prepared::{
    bound_statement, parameters_needed, scan_statement_placeholders, PreparedKind, PreparedModel,
    PreparedStatement,
};
use crate::execution::query::{answer_result, answered};
use crate::execution::recovery::{index_specs, rebuilt, Rebuilt, RecoveryManager};
use crate::execution::relation::execution_fault;
use crate::execution::scan::unknown_table;
use crate::execution::transaction::TransactionId;
use crate::execution::wal::{logged, read_log, records, Record, WalRecord};
use crate::float::{FloatModel, Floats};
use crate::optimizer::planner::{plan_result, planned, PhysicalPlan, PlanModel};
use crate::sql::binder::{bound, Binder};
use crate::sql::parser::{
    parsed, text_rows, DeleteStatement, InsertStatement, SQLParser, SQLStatement, StatementModel,
    UpdateStatement,
};
use crate::text::{decimal, texts, unsigned_to_text};

verus! {

// ---- what a statement does --------------------------------------------------------------

/// A change that has been checked, and buffered where it is one of rows, and is
/// still to be made.
pub enum Pending {
    /// The rows that were buffered; `indexed` says whether indexes are to be told.
    Rows { tx: TransactionId, schema: TableSchema, rows: Vec<(u64, Vec<Value>)>, indexed: bool },
    Table(TableSchema),
    Index { table_id: u64, column: String },
}

/// A pending change as contracts speak of it.
pub enum PendingModel {
    Rows { tx: u64, schema: SchemaModel, rows: Seq<(u64, Seq<Datum>)>, indexed: bool },
    Table(SchemaModel),
    Index { table_id: u64, column: Seq<char> },
}

impl View for Pending {
    type V = PendingModel;

    open spec fn view(&self) -> PendingModel {
        match *self {
            Pending::Rows { tx, schema, rows, indexed } => PendingModel::Rows {
                tx: tx.0,
                schema: schema@,
                rows: staged_rows(rows@),
                indexed,
            },
            Pending::Table(s) => PendingModel::Table(s@),
            Pending::Index { table_id, column } => PendingModel::Index {
                table_id,
                column: column@,
            },
        }
    }
}

/// What the first step of a statement gives: the answer of one that changes nothing
/// that is logged, or the record to log and the change to make then.
pub enum Step {
    Answer(Vec<Vec<String>>),
    Log(WalRecord, Pending),
}

/// What the first step gives, as contracts speak of it.
pub enum StepModel {
    Answer(Seq<Seq<Seq<char>>>),
    Log(Record, PendingModel),
}

impl View for Step {
    type V = StepModel;

    open spec fn view(&self) -> StepModel {
        match *self {
            Step::Answer(v) => StepModel::Answer(text_rows(v@)),
            Step::Log(r, p) => StepModel::Log(r@, p@),
        }
    }
}

/// A step or an error, as its model.
pub open spec fn step_result(r: Result<Step, DatabaseError>) -> Result<StepModel, Fault> {
    match r {
        Ok(s) => Ok(s@),
        Err(e) => Err(e@),
    }
}

/// What the first step of a statement leaves.
pub struct Begun {
    pub db: Db,
    pub result: Result<StepModel, Fault>,
}

/// A fault that leaves a database as it was.
pub open spec fn refused(db: Db, f: Fault) -> Begun {
    Begun { db, result: Err(f) }
}

/// The first step of a change of rows, by what buffering them left.
pub open spec fn change_begun(db: Db, o: Outcome, table: Seq<char>, indexed: bool) -> Begun {
    let after = Db { engine: o.engine, ..db };
    Begun {
        db: after,
        result: match (o.result, table_named(db.catalog, table)) {
            (Ok(rows), Some(schema)) => Ok(
                StepModel::Log(
                    Record::Commit {
                        commit_ts: (o.engine.clock + 1) as u64,
                        ops: buffer_of(o.engine, db.engine.next_tx),
                    },
                    PendingModel::Rows { tx: db.engine.next_tx, schema, rows, indexed },
                ),
            ),
            (Err(f), _) => Err(f),
            (Ok(_), None) => Err(unknown_table(table)),
        },
    }
}

/// What running a plan gives.
pub open spec fn plan_run(db: Db, p: PlanModel, fl: FloatModel) -> Begun {
    Begun {
        db,
        result: match answered(db, p.nodes, fl) {
            Ok(rows) => Ok(StepModel::Answer(rows)),
            Err(f) => Err(f),
        },
    }
}

/// The first step of a statement.
pub open spec fn started(db: Db, s: StatementModel, fl: FloatModel) -> Begun {
    match s {
        StatementModel::Select(q) => match planned(q, db.stats, db.costs, db.join_costs, fl) {
            Ok(p) => plan_run(db, p, fl),
            Err(f) => refused(db, f),
        },
        StatementModel::Insert(q) => change_begun(db, insert_staged(db, q, fl), q.table, true),
        StatementModel::Update(q) => change_begun(db, update_staged(db, q, fl), q.table, true),
        StatementModel::Delete(q) => change_begun(db, delete_staged(db, q, fl), q.table, false),
        StatementModel::CreateTable(q) => match new_schema(db.catalog, q) {
            Ok(schema) => Begun {
                db,
                result: Ok(
                    StepModel::Log(Record::CreateTable(schema), PendingModel::Table(schema)),
                ),
            },
            Err(f) => refused(db, f),
        },
        StatementModel::CreateIndex(q) => match index_target(db.catalog, q) {
            Ok(table_id) => Begun {
                db,
                result: Ok(
                    StepModel::Log(
                        Record::CreateIndex { table_id, column: q.column },
                        PendingModel::Index { table_id, column: q.column },
                    ),
                ),
            },
            Err(f) => refused(db, f),
        },
        StatementModel::Analyze(table) => match analyzed(db, table, fl) {
            Ok(stats) => Begun {
                db: Db { stats, ..db },
                result: Ok(StepModel::Answer(Seq::empty())),
            },
            Err(f) => refused(db, f),
        },
    }
}

/// The fault of a statement that has placeholders where none can be filled.
pub open spec fn unfilled() -> Fault {
    execution_fault(
        "this statement contains a ?/$N placeholder -- use prepare()/execute_prepared() to bind parameters, execute_sql() cannot"@,
    )
}

/// The first step of a statement text: it is parsed, bound to the catalog, and must
/// have no placeholder.
pub open spec fn text_started(db: Db, sql: Seq<char>, fl: FloatModel) -> Begun {
    match parsed(sql) {
        Err(f) => refused(db, f),
        Ok(s) => match bound(db.catalog, s) {
            Err(f) => refused(db, f),
            Ok(_) => match parameters_needed(s) {
                Err(f) => refused(db, f),
                Ok(n) => if n > 0 {
                    refused(db, unfilled())
                } else {
                    started(db, s, fl)
                },
            },
        },
    }
}

/// The first step of a statement that was prepared.
pub open spec fn kind_started(db: Db, k: PreparedModel, fl: FloatModel) -> Begun {
    match k {
        PreparedModel::Select(p) => plan_run(db, p, fl),
        PreparedModel::Insert(q) => started(db, StatementModel::Insert(q), fl),
        PreparedModel::Update(q) => started(db, StatementModel::Update(q), fl),
        PreparedModel::Delete(q) => started(db, StatementModel::Delete(q), fl),
    }
}

/// The first step of a prepared statement with its parameters.
pub open spec fn prepared_started(
    db: Db,
    k: PreparedModel,
    param_count: usize,
    params: Seq<Datum>,
    fl: FloatModel,
) -> Begun {
    match bound_statement(k, param_count, params, fl) {
        Ok(filled) => kind_started(db, filled, fl),
        Err(f) => refused(db, f),
    }
}

/// What a statement leaves in the end.
pub struct Done {
    pub db: Db,
    pub result: Result<Seq<Seq<Seq<char>>>, Fault>,
}

/// What making a pending change leaves. A change of rows answers how many there
/// were.
pub open spec fn settled(db: Db, p: PendingModel, fl: FloatModel) -> Done {
    match p {
        PendingModel::Rows { tx, schema, rows, indexed } => Done {
            db: Db {
                engine: committed(db.engine, tx, fl),
                indexes: if indexed {
                    rows_indexed(db.indexes, schema, rows, rows.len() as int)
                } else {
                    db.indexes
                },
                ..db
            },
            result: Ok(seq![seq![decimal(rows.len() as int)]]),
        },
        PendingModel::Table(s) => Done {
            db: Db {
                catalog: registered(db.catalog, s),
                engine: Engine {
                    tables: with_table(db.engine.tables, s.table_id as u64),
                    ..db.engine
                },
                ..db
            },
            result: Ok(Seq::empty()),
        },
        PendingModel::Index { table_id, column } => match built_index(db, table_id, column) {
            Ok(m) => Done {
                db: Db { indexes: with_index(db.indexes, m), ..db },
                result: Ok(Seq::empty()),
            },
            Err(f) => Done { db, result: Err(f) },
        },
    }
}

/// What cancelling a pending change leaves.
pub open spec fn cancelled(db: Db, p: PendingModel) -> Db {
    match p {
        PendingModel::Rows { tx, .. } => Db { engine: aborted(db.engine, tx), ..db },
        _ => db,
    }
}

/// What a statement leaves whose change is made at once.
pub open spec fn finished(b: Begun, fl: FloatModel) -> Done {
    match b.result {
        Err(f) => Done { db: b.db, result: Err(f) },
        Ok(StepModel::Answer(rows)) => Done { db: b.db, result: Ok(rows) },
        Ok(StepModel::Log(_, p)) => settled(b.db, p, fl),
    }
}

// ---- opening a log ----------------------------------------------------------------------

/// A database after the indexes from the `i`-th on have been built.
pub open spec fn indexes_built(db: Db, specs: Seq<(u64, Seq<char>)>, i: int) -> Result<Db, Fault>
    decreases specs.len() - i,
{
    if 0 <= i < specs.len() {
        match built_index(db, specs[i].0, specs[i].1) {
            Ok(m) => indexes_built(
                Db { indexes: with_index(db.indexes, m), ..db },
                specs,
                i + 1,
            ),
            Err(f) => Err(f),
        }
    } else {
        Ok(db)
    }
}

/// What is there before a log is replayed.
pub open spec fn nothing_rebuilt() -> Rebuilt {
    Rebuilt { catalog: Seq::empty(), tables: Map::empty(), top: 0, indexes: Seq::empty() }
}

/// The database that the records of a log rebuild.
pub open spec fn reopened(rs: Seq<Record>, fl: FloatModel) -> Result<Db, Fault> {
    let end = rebuilt(nothing_rebuilt(), rs, rs.len() as int, fl);
    let db = Db {
        engine: Engine { tables: end.tables, clock: end.top, ..new_engine() },
        ..new_db(end.catalog)
    };
    indexes_built(db, end.indexes, 0)
}

// ---- running statements -----------------------------------------------------------------

/// A prepared statement or an error, as its model.
pub open spec fn prepared_result(r: Result<PreparedStatement, DatabaseError>) -> Result<
    (PreparedModel, int),
    Fault,
> {
    match r {
        Ok(p) => Ok((p.kind@, p.param_count as int)),
        Err(e) => Err(e@),
    }
}

/// The prepared form of a statement: a query is planned.
pub open spec fn kind_of_statement(db: Db, s: StatementModel, fl: FloatModel) -> Result<
    PreparedModel,
    Fault,
> {
    match s {
        StatementModel::Select(q) => match planned(q, db.stats, db.costs, db.join_costs, fl) {
            Ok(p) => Ok(PreparedModel::Select(p)),
            Err(f) => Err(f),
        },
        StatementModel::Insert(q) => Ok(PreparedModel::Insert(q)),
        StatementModel::Update(q) => Ok(PreparedModel::Update(q)),
        StatementModel::Delete(q) => Ok(PreparedModel::Delete(q)),
        _ => Err(
            execution_fault(
                "CREATE and ANALYZE statements cannot be prepared; use execute_sql"@,
            ),
        ),
    }
}

/// A statement text prepared.
pub open spec fn text_prepared(db: Db, sql: Seq<char>, fl: FloatModel) -> Result<
    (PreparedModel, int),
    Fault,
> {
    match parsed(sql) {
        Err(f) => Err(f),
        Ok(s) => match bound(db.catalog, s) {
            Err(f) => Err(f),
            Ok(_) => match parameters_needed(s) {
                Err(f) => Err(f),
                Ok(n) => match kind_of_statement(db, s, fl) {
                    Ok(k) => Ok((k, n)),
                    Err(f) => Err(f),
                },
            },
        },
    }
}

fn one_text(t: String) -> (r: Vec<Vec<String>>)
    ensures
        text_rows(r@) == seq![seq![t@]],
{
    let mut row: Vec<String> = Vec::new();
    row.push(t);
    let mut out: Vec<Vec<String>> = Vec::new();
    assert(texts(row@) =~= seq![t@]);
    out.push(row);
    assert(text_rows(out@) =~= seq![seq![t@]]);
    out
}

fn no_rows() -> (r: Vec<Vec<String>>)
    ensures
        text_rows(r@) == Seq::<Seq<Seq<char>>>::empty(),
{
    let out: Vec<Vec<String>> = Vec::new();
    assert(text_rows(out@) =~= Seq::<Seq<Seq<char>>>::empty());
    out
}

impl QueryExecutor {
    fn log_rows(
        &self,
        tx: TransactionId,
        table: &str,
        rows: Vec<(u64, Vec<Value>)>,
        indexed: bool,
    ) -> (r: Result<Step, DatabaseError>)
        requires
            self.wf(),
            self.oltp.has_time(),
        ensures
            match table_named(self@.catalog, table@) {
                Some(schema) => r matches Ok(s) && s@ == StepModel::Log(
                    Record::Commit {
                        commit_ts: (self@.engine.clock + 1) as u64,
                        ops: buffer_of(self@.engine, tx.0),
                    },
                    PendingModel::Rows { tx: tx.0, schema, rows: staged_rows(rows@), indexed },
                ),
                None => r matches Err(e) && e@ == unknown_table(table@),
            },
    {
        match self.schema_of(table) {
            Ok(schema) => {
                let record = self.oltp.commit_record(tx);
                Ok(Step::Log(record, Pending::Rows { tx, schema, rows, indexed }))
            },
            Err(e) => Err(e),
        }
    }

    fn start_insert<F: Floats>(&mut self, insert: &InsertStatement, floats: &F) -> (r: Result<
        Step,
        DatabaseError,
    >)
        requires
            old(self).wf(),
            old(self).oltp.has_time(),
            floats.sound(),
        ensures
            final(self).wf(),
            ({
                let b = started(
                    old(self)@,
                    StatementModel::Insert(insert@),
                    floats.model(),
                );
                final(self)@ == b.db && step_result(r) == b.result
            }),
            final(self).oltp.has_time(),
    {
        let ghost db = self@;
        let tx = TransactionId(self.oltp.transactions.next_tx_id);
        let staged = self.stage_insert(insert, floats);
        proof {
            insertions_are_buffered(db, insert@, floats.model());
        }
        match staged {
            Ok(rows) => self.log_rows(tx, insert.table.as_str(), rows, true),
            Err(e) => Err(e),
        }
    }

    fn start_update<F: Floats>(&mut self, update: &UpdateStatement, floats: &F) -> (r: Result<
        Step,
        DatabaseError,
    >)
        requires
            old(self).wf(),
            old(self).oltp.has_time(),
            floats.sound(),
        ensures
            final(self).wf(),
            ({
                let b = started(
                    old(self)@,
                    StatementModel::Update(update@),
                    floats.model(),
                );
                final(self)@ == b.db && step_result(r) == b.result
            }),
            final(self).oltp.has_time(),
    {
        let ghost db = self@;
        let tx = TransactionId(self.oltp.transactions.next_tx_id);
        let staged = self.stage_update(update, floats);
        proof {
            replacements_are_buffered(db, update@, floats.model());
        }
        match staged {
            Ok(rows) => self.log_rows(tx, update.table.as_str(), rows, true),
            Err(e) => Err(e),
        }
    }

    fn start_delete<F: Floats>(&mut self, delete: &DeleteStatement, floats: &F) -> (r: Result<
        Step,
        DatabaseError,
    >)
        requires
            old(self).wf(),
            old(self).oltp.has_time(),
            floats.sound(),
        ensures
            final(self).wf(),
            ({
                let b = started(
                    old(self)@,
                    StatementModel::Delete(delete@),
                    floats.model(),
                );
                final(self)@ == b.db && step_result(r) == b.result
            }),
            final(self).oltp.has_time(),
    {
        let ghost db = self@;
        let tx = TransactionId(self.oltp.transactions.next_tx_id);
        let staged = self.stage_delete(delete, floats);
        proof {
            removals_are_buffered(db, delete@, floats.model());
        }
        match staged {
            Ok(rows) => self.log_rows(tx, delete.table.as_str(), rows, false),
            Err(e) => Err(e),
        }
    }

    fn start_plan<F: Floats>(&self, plan: &PhysicalPlan, floats: &F) -> (r: Result<
        Step,
        DatabaseError,
    >)
        requires
            self.wf(),
            floats.sound(),
        ensures
            step_result(r) == plan_run(self@, plan@, floats.model()).result,
    {
        match self.execute(plan, floats) {
            Ok(rows) => Ok(Step::Answer(rows)),
            Err(e) => Err(e),
        }
    }

    /// The first step of a statement.
    pub fn start<F: Floats>(&mut self, stmt: &SQLStatement, floats: &F) -> (r: Result<
        Step,
        DatabaseError,
    >)
        requires
            old(self).wf(),
            old(self).oltp.has_time(),
            floats.sound(),
        ensures
            final(self).wf(),
            final(self).oltp.has_time(),
            final(self)@ == started(old(self)@, stmt@, floats.model()).db,
            step_result(r) == started(old(self)@, stmt@, floats.model()).result,
    {
        match stmt {
            SQLStatement::Select(select) => match self.planner.plan_select(
                select,
                &self.stats,
                floats,
            ) {
                Ok(plan) => self.start_plan(&plan, floats),
                Err(e) => Err(e),
            },
            SQLStatement::Insert(insert) => self.start_insert(insert, floats),
            SQLStatement::Update(update) => self.start_update(update, floats),
            SQLStatement::Delete(delete) => self.start_delete(delete, floats),
            SQLStatement::CreateTable(create) => match schema_for(&self.catalog, create) {
                Ok(schema) => Ok(
                    Step::Log(WalRecord::CreateTable(schema.clone()), Pending::Table(schema)),
                ),
                Err(e) => Err(e),
            },
            SQLStatement::CreateIndex(create) => match self.index_table(create) {
                Ok(table_id) => Ok(
                    Step::Log(
                        WalRecord::CreateIndex { table_id, column: create.column.clone() },
                        Pending::Index { table_id, column: create.column.clone() },
                    ),
                ),
                Err(e) => Err(e),
            },
            SQLStatement::Analyze(analyze) => match self.execute_analyze(
                analyze.table.as_str(),
                floats,
            ) {
                Ok(_) => Ok(Step::Answer(no_rows())),
                Err(e) => Err(e),
            },
        }
    }

    /// The first step of a statement text.
    pub fn start_sql<F: Floats>(&mut self, sql: &str, floats: &F) -> (r: Result<
        Step,
        DatabaseError,
    >)
        requires
            old(self).wf(),
            old(self).oltp.has_time(),
            floats.sound(),
        ensures
            final(self).wf(),
            final(self).oltp.has_time(),
            final(self)@ == text_started(old(self)@, sql@, floats.model()).db,
            step_result(r) == text_started(old(self)@, sql@, floats.model()).result,
    {
        let stmt = match SQLParser::parse(sql) {
            Ok(s) => s,
            Err(e) => {
                return Err(e);
            },
        };
        match Binder::new(&self.catalog).bind(&stmt) {
            Ok(_) => {},
            Err(e) => {
                return Err(e);
            },
        }
        match scan_statement_placeholders(&stmt) {
            Ok(n) => {
                if n > 0 {
                    return Err(
                        DatabaseError::ExecutionError(
                            "this statement contains a ?/$N placeholder -- use prepare()/execute_prepared() to bind parameters, execute_sql() cannot".to_owned(),
                        ),
                    );
                }
            },
            Err(e) => {
                return Err(e);
            },
        }
        self.start(&stmt, floats)
    }

    /// Makes a change whose record has been logged.
    pub fn settle<F: Floats>(&mut self, pending: Pending, floats: &F) -> (r: Result<
        Vec<Vec<String>>,
        DatabaseError,
    >)
        requires
            old(self).wf(),
            old(self).oltp.has_time(),
            floats.sound(),
        ensures
            final(self).wf(),
            final(self)@ == settled(old(self)@, pending@, floats.model()).db,
            answer_result(r) == settled(old(self)@, pending@, floats.model()).result,
    {
        match pending {
            Pending::Rows { tx, schema, rows, indexed } => {
                let ghost db = self@;
                let ghost all = staged_rows(rows@);
                let ghost after = committed(db.engine, tx.0, floats.model());
                match self.oltp.commit(tx, floats) {
                    Ok(_) => {},
                    Err(e) => {
                        return Err(e);
                    },
                }
                if indexed {
                    let mut i: usize = 0;
                    while i < rows.len()
                        invariant
                            i <= rows@.len(),
                            self.wf(),
                            all == staged_rows(rows@),
                            self@ == (Db {
                                engine: after,
                                indexes: rows_indexed(db.indexes, schema@, all, i as int),
                                ..db
                            }),
                        decreases rows@.len() - i,
                    {
                        assert(all[i as int] == (rows@[i as int].0, data(rows@[i as int].1@)));
                        self.index_row_in_secondary_indexes(&schema, rows[i].0, &rows[i].1);
                        i = i + 1;
                    }
                }
                let n = unsigned_to_text(rows.len() as u64);
                assert(all.len() == rows@.len());
                Ok(one_text(n))
            },
            Pending::Table(schema) => {
                let id: u64 = schema.table_id as u64;
                self.catalog.register_table(schema);
                self.oltp.create_table(id);
                Ok(no_rows())
            },
            Pending::Index { table_id, column } => match self.rebuild_secondary_index(
                table_id,
                column.as_str(),
            ) {
                Ok(_) => Ok(no_rows()),
                Err(e) => Err(e),
            },
        }
    }

    /// Cancels a change whose record could not be logged.
    pub fn cancel(&mut self, pending: Pending)
        requires
            old(self).wf(),
        ensures
            final(self).wf(),
            final(self)@ == cancelled(old(self)@, pending@),
    {
        match pending {
            Pending::Rows { tx, .. } => {
                self.oltp.abort(tx);
            },
            _ => {},
        }
    }

    fn finish<F: Floats>(&mut self, step: Result<Step, DatabaseError>, floats: &F) -> (r: Result<
        Vec<Vec<String>>,
        DatabaseError,
    >)
        requires
            old(self).wf(),
            old(self).oltp.has_time(),
            floats.sound(),
        ensures
            final(self).wf(),
            ({
                let d = finished(
                    Begun { db: old(self)@, result: step_result(step) },
                    floats.model(),
                );
                final(self)@ == d.db && answer_result(r) == d.result
            }),
    {
        match step {
            Ok(Step::Answer(rows)) => Ok(rows),
            Ok(Step::Log(_, pending)) => self.settle(pending, floats),
            Err(e) => Err(e),
        }
    }

    /// Runs a statement text; a change is made at once, without a log.
    pub fn execute_sql<F: Floats>(&mut self, sql: &str, floats: &F) -> (r: Result<
        Vec<Vec<String>>,
        DatabaseError,
    >)
        requires
            old(self).wf(),
            old(self).oltp.has_time(),
            floats.sound(),
        ensures
            final(self).wf(),
            ({
                let d = finished(
                    text_started(old(self)@, sql@, floats.model()),
                    floats.model(),
                );
                final(self)@ == d.db && answer_result(r) == d.result
            }),
    {
        let step = self.start_sql(sql, floats);
        self.finish(step, floats)
    }

    /// Parses a statement text and, where it is a query, plans it, once for many
    /// runs.
    pub fn prepare<F: Floats>(&self, sql: &str, floats: &F) -> (r: Result<
        PreparedStatement,
        DatabaseError,
    >)
        requires
            self.wf(),
            floats.sound(),
        ensures
            prepared_result(r) == text_prepared(self@, sql@, floats.model()),
    {
        let stmt = match SQLParser::parse(sql) {
            Ok(s) => s,
            Err(e) => {
                return Err(e);
            },
        };
        match Binder::new(&self.catalog).bind(&stmt) {
            Ok(_) => {},
            Err(e) => {
                return Err(e);
            },
        }
        let param_count: usize = match scan_statement_placeholders(&stmt) {
            Ok(n) => n,
            Err(e) => {
                return Err(e);
            },
        };
        let kind = match stmt {
            SQLStatement::Select(select) => match self.planner.plan_select(
                &select,
                &self.stats,
                floats,
            ) {
                Ok(plan) => PreparedKind::Select(plan),
                Err(e) => {
                    return Err(e);
                },
            },
            SQLStatement::Insert(insert) => PreparedKind::Insert(insert),
            SQLStatement::Update(update) => PreparedKind::Update(update),
            SQLStatement::Delete(delete) => PreparedKind::Delete(delete),
            _ => {
                return Err(
                    DatabaseError::ExecutionError(
                        "CREATE and ANALYZE statements cannot be prepared; use execute_sql".to_owned(),
                    ),
                );
            },
        };
        Ok(PreparedStatement { kind, param_count })
    }

    /// The first step of a prepared statement with its parameters.
    pub fn start_prepared<F: Floats>(
        &mut self,
        stmt: &PreparedStatement,
        params: &[Value],
        floats: &F,
    ) -> (r: Result<Step, DatabaseError>)
        requires
            old(self).wf(),
            old(self).oltp.has_time(),
            floats.sound(),
        ensures
            final(self).wf(),
            final(self).oltp.has_time(),
            ({
                let b = prepared_started(
                    old(self)@,
                    stmt.kind@,
                    stmt.param_count,
                    data(params@),
                    floats.model(),
                );
                final(self)@ == b.db && step_result(r) == b.result
            }),
    {
        match stmt.bind(params, floats) {
            Err(e) => Err(e),
            Ok(PreparedKind::Select(plan)) => self.start_plan(&plan, floats),
            Ok(PreparedKind::Insert(insert)) => self.start_insert(&insert, floats),
            Ok(PreparedKind::Update(update)) => self.start_update(&update, floats),
            Ok(PreparedKind::Delete(delete)) => self.start_delete(&delete, floats),
        }
    }

    /// Runs a prepared statement with its parameters; a change is made at once,
    /// without a log. Parameters that it does not need are ignored.
    pub fn execute_prepared<F: Floats>(
        &mut self,
        stmt: &PreparedStatement,
        params: &[Value],
        floats: &F,
    ) -> (r: Result<Vec<Vec<String>>, DatabaseError>)
        requires
            old(self).wf(),
            old(self).oltp.has_time(),
            floats.sound(),
        ensures
            final(self).wf(),
            ({
                let d = finished(
                    prepared_started(
                        old(self)@,
                        stmt.kind@,
                        stmt.param_count,
                        data(params@),
                        floats.model(),
                    ),
                    floats.model(),
                );
                final(self)@ == d.db && answer_result(r) == d.result
            }),
    {
        let step = self.start_prepared(stmt, params, floats);
        self.finish(step, floats)
    }

    /// The plan of a query text, which is not run.
    pub fn explain<F: Floats>(&self, sql: &str, floats: &F) -> (r: Result<
        PhysicalPlan,
        DatabaseError,
    >)
        requires
            self.wf(),
            floats.sound(),
        ensures
            plan_result(r) == match parsed(sql@) {
                Ok(StatementModel::Select(q)) => planned(
                    q,
                    self@.stats,
                    self@.costs,
                    self@.join_costs,
                    floats.model(),
                ),
                Ok(_) => Err(execution_fault("explain() only supports SELECT"@)),
                Err(f) => Err(f),
            },
    {
        match SQLParser::parse(sql) {
            Ok(SQLStatement::Select(select)) => self.planner.plan_select(
                &select,
                &self.stats,
                floats,
            ),
            Ok(_) => Err(
                DatabaseError::ExecutionError("explain() only supports SELECT".to_owned()),
            ),
            Err(e) => Err(e),
        }
    }

    /// The database that the bytes of a log rebuild.
    pub fn open<F: Floats>(log: &Vec<u8>, floats: &F) -> (r: Result<QueryExecutor, DatabaseError>)
        requires
            floats.sound(),
        ensures
            match reopened(logged(log@), floats.model()) {
                Ok(db) => r matches Ok(q) && q.wf() && q@ == db,
                Err(f) => r matches Err(e) && e@ == f,
            },
    {
        let ghost rs = logged(log@);
        let ghost fl = floats.model();
        let log_records = read_log(log);
        assert(records(log_records@).len() == log_records@.len());
        let mut catalog = Catalog::new();
        let mut oltp = OLTPEngine::new();
        let specs = RecoveryManager::recover(log_records, &mut catalog, &mut oltp, floats);
        let ghost wanted = index_specs(specs@);
        let mut q = QueryExecutor::new(catalog);
        q.oltp = oltp;
        let ghost start = q@;
        let mut i: usize = 0;
        while i < specs.len()
            invariant
                i <= specs@.len(),
                q.wf(),
                wanted == index_specs(specs@),
                rs == logged(log@),
                fl == floats.model(),
                reopened(rs, fl) == indexes_built(q@, wanted, i as int),
            decreases specs@.len() - i,
        {
            assert(wanted[i as int] == (specs@[i as int].0, specs@[i as int].1@));
            match q.rebuild_secondary_index(specs[i].0, specs[i].1.as_str()) {
                Ok(_) => {},
                Err(e) => {
                    return Err(e);
                },
            }
            i = i + 1;
        }
        Ok(q)
    }

    /// Begins a transaction.
    pub fn begin_transaction(&mut self) -> (r: TransactionId)
        requires
            old(self).wf(),
        ensures
            final(self).wf(),
            final(self)@ == (Db { engine: begun(old(self)@.engine), ..old(self)@ }),
            r.0 == old(self)@.engine.next_tx,
    {
        self.oltp.begin()
    }

    /// What a transaction reads of a row.
    pub fn read_row(&self, tx_id: TransactionId, table_id: u64, row_id: u64) -> (r: Result<
        Option<Vec<u8>>,
        DatabaseError,
    >)
        requires
            self.wf(),
            self@.engine.tables.dom().contains(table_id) || last_write(
                buffer_of(self@.engine, tx_id.0),
                table_id,
                row_id,
                buffer_of(self@.engine, tx_id.0).len() as int,
            ) is Some,
        ensures
            r matches Ok(v) && optional_bytes(v) == read_by(
                self@.engine,
                tx_id.0,
                table_id,
                row_id,
            ),
    {
        self.oltp.read(tx_id, table_id, row_id)
    }

    /// Buffers a write, which nobody else sees before the transaction commits.
    pub fn write_row(&mut self, tx_id: TransactionId, op: WriteOp) -> (r: Result<
        (),
        DatabaseError,
    >)
        requires
            old(self).wf(),
        ensures
            final(self).wf(),
            ({
                let key = LockKey { table_id: target(op@).0, row_id: target(op@).1 };
                let before = old(self)@.engine;
                let after = final(self)@.engine;
                &&& acquired(before.locks, after.locks, r, tx_id, key, LockMode::Exclusive)
                &&& final(self)@ == (Db {
                    engine: Engine {
                        locks: after.locks,
                        buffered: if r is Ok {
                            with_write(before, tx_id.0, op@).buffered
                        } else {
                            before.buffered
                        },
                        ..before
                    },
                    ..old(self)@
                })
            }),
    {
        self.oltp.write(tx_id, op)
    }

    /// Commits a transaction.
    pub fn commit_transaction<F: Floats>(&mut self, tx_id: TransactionId, floats: &F) -> (r: Result<
        (),
        DatabaseError,
    >)
        requires
            old(self).wf(),
            old(self).oltp.has_time(),
            floats.sound(),
        ensures
            r is Ok,
            final(self).wf(),
            final(self)@ == (Db {
                engine: committed(old(self)@.engine, tx_id.0, floats.model()),
                ..old(self)@
            }),
    {
        self.oltp.commit(tx_id, floats)
    }

    /// Aborts a transaction.
    pub fn abort_transaction(&mut self, tx_id: TransactionId)
        requires
            old(self).wf(),
        ensures
            final(self).wf(),
            final(self)@ == (Db { engine: aborted(old(self)@.engine, tx_id.0), ..old(self)@ }),
    {
        self.oltp.abort(tx_id);
    }
}

} // verus!
