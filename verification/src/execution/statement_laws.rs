//! What becomes of a statement from its text to its answer.

use vstd::prelude::*;
use crate::error::{fault_text, Fault};
use crate::execution::aggregate::{stand_in, AggregateFn, Call};
use crate::execution::catalog::{registered, DataType, SchemaModel};
use crate::execution::changes::locked;
use crate::execution::definitions::built_index;
use crate::execution::executor::Db;
use crate::execution::grouping::having_schema;
use crate::execution::lock_manager::{
    entry_of, grantable, holds, listed, locked_rows, LockKey, LockMode, Locks,
};
use crate::execution::oltp::Engine;
use crate::execution::operators::Datum;
use crate::execution::prepared::{bound_statement, parameters_needed, PreparedModel};
use crate::execution::query::answered;
use crate::execution::statements::{
    finished, kind_of_statement, prepared_started, settled, started, text_prepared,
    text_started, Begun, PendingModel, StepModel,
};
use crate::execution::transaction::TransactionId;
use crate::float::FloatModel;
use crate::optimizer::planner::planned;
use crate::sql::binder::bound;
use crate::sql::parser::{
    parsed, DeleteModel, InsertModel, SelectModel, StatementModel, UpdateModel,
};
use crate::sql::source::{sql_heading, HeadingModel};

verus! {

/// A text that is no statement, names what does not exist, or has a placeholder is refused
/// and changes nothing; any other is run as the statement that it is.
pub proof fn a_text_is_run_as_its_statement(db: Db, sql: Seq<char>, fl: FloatModel)
    ensures
        match parsed(sql) {
            Err(f) => text_started(db, sql, fl).result == Err::<StepModel, Fault>(f)
                && text_started(db, sql, fl).db == db,
            Ok(s) => match (bound(db.catalog, s), parameters_needed(s)) {
                (Ok(_), Ok(n)) => if n > 0 {
                    text_started(db, sql, fl).result is Err && text_started(db, sql, fl).db == db
                } else {
                    text_started(db, sql, fl) == started(db, s, fl)
                },
                _ => text_started(db, sql, fl).result is Err && text_started(db, sql, fl).db == db,
            },
        },
{
}

/// A query is answered by running its plan, and leaves the database as it is.
pub proof fn a_query_is_answered_by_its_plan(db: Db, q: SelectModel, fl: FloatModel)
    ensures
        ({
            let b = started(db, StatementModel::Select(q), fl);
            &&& b.db == db
            &&& match planned(q, db.stats, db.costs, db.join_costs, fl) {
                Ok(p) => match answered(db, p.nodes, fl) {
                    Ok(rows) => b.result == Ok::<StepModel, Fault>(StepModel::Answer(rows)),
                    Err(f) => b.result == Err::<StepModel, Fault>(f),
                },
                Err(f) => b.result == Err::<StepModel, Fault>(f),
            }
        }),
{
}

/// A statement that is to be logged is finished by settling it; an answer and an error are
/// handed on.
pub proof fn a_statement_is_finished_by_settling(b: Begun, fl: FloatModel)
    ensures
        match b.result {
            Ok(StepModel::Log(_, p)) => finished(b, fl) == settled(b.db, p, fl),
            Ok(StepModel::Answer(rows)) => finished(b, fl).db == b.db && finished(b, fl).result
                == Ok::<Seq<Seq<Seq<char>>>, Fault>(rows),
            Err(f) => finished(b, fl).db == b.db && finished(b, fl).result == Err::<
                Seq<Seq<Seq<char>>>,
                Fault,
            >(f),
        },
{
}

/// A new table is known and can be written to once it is settled, and answers nothing; an
/// index is there once it is built.
pub proof fn settling_defines_what_was_asked(
    db: Db,
    s: SchemaModel,
    table_id: u64,
    column: Seq<char>,
    fl: FloatModel,
)
    ensures
        ({
            let d = settled(db, PendingModel::Table(s), fl);
            &&& d.db.catalog == registered(db.catalog, s)
            &&& d.db.engine.tables.dom().contains(s.table_id as u64)
            &&& d.db.indexes == db.indexes
            &&& d.result == Ok::<Seq<Seq<Seq<char>>>, Fault>(Seq::empty())
        }),
        ({
            let d = settled(db, PendingModel::Index { table_id, column }, fl);
            match built_index(db, table_id, column) {
                Ok(m) => d.result is Ok && d.db.engine == db.engine && d.db.catalog == db.catalog
                    && d.db.indexes.contains(m),
                Err(f) => d.db == db && d.result == Err::<Seq<Seq<Seq<char>>>, Fault>(f),
            }
        }),
{
    if built_index(db, table_id, column) is Ok {
        let m = built_index(db, table_id, column)->Ok_0;
        let d = settled(db, PendingModel::Index { table_id, column }, fl);
        match crate::execution::scan::index_place(db.indexes, m.table_id, m.column, 0) {
            Some(i) => {
                lemma_index_place(db, m.table_id, m.column, 0);
                assert(d.db.indexes[i] == m);
            },
            None => {
                assert(d.db.indexes[db.indexes.len() as int] == m);
            },
        }
    }
}

proof fn lemma_index_place(db: Db, table_id: u64, column: Seq<char>, from: int)
    requires
        0 <= from <= db.indexes.len(),
    ensures
        crate::execution::scan::index_place(db.indexes, table_id, column, from) matches Some(i)
            ==> from <= i < db.indexes.len(),
    decreases db.indexes.len() - from,
{
    if from < db.indexes.len() {
        lemma_index_place(db, table_id, column, from + 1);
    }
}

/// A prepared statement keeps what it changes and how many parameters it needs; run with
/// parameters it does what the statement with them does.
pub proof fn a_prepared_statement_runs_with_its_parameters(
    db: Db,
    sql: Seq<char>,
    param_count: usize,
    params: Seq<Datum>,
    i: InsertModel,
    u: UpdateModel,
    d: DeleteModel,
    fl: FloatModel,
)
    ensures
        text_prepared(db, sql, fl) matches Ok((k, n)) ==> parsed(sql) is Ok && bound(
            db.catalog,
            parsed(sql)->Ok_0,
        ) is Ok && parameters_needed(parsed(sql)->Ok_0) == Ok::<int, Fault>(n)
            && kind_of_statement(db, parsed(sql)->Ok_0, fl) == Ok::<PreparedModel, Fault>(k),
        kind_of_statement(db, StatementModel::Insert(i), fl) == Ok::<PreparedModel, Fault>(
            PreparedModel::Insert(i),
        ),
        kind_of_statement(db, StatementModel::Update(u), fl) == Ok::<PreparedModel, Fault>(
            PreparedModel::Update(u),
        ),
        kind_of_statement(db, StatementModel::Delete(d), fl) == Ok::<PreparedModel, Fault>(
            PreparedModel::Delete(d),
        ),
        bound_statement(PreparedModel::Delete(d), param_count, params, fl) matches Ok(
            PreparedModel::Delete(filled),
        ) ==> prepared_started(db, PreparedModel::Delete(d), param_count, params, fl) == started(
            db,
            StatementModel::Delete(filled),
            fl,
        ),
        bound_statement(PreparedModel::Update(u), param_count, params, fl) matches Ok(
            PreparedModel::Update(filled),
        ) ==> prepared_started(db, PreparedModel::Update(u), param_count, params, fl) == started(
            db,
            StatementModel::Update(filled),
            fl,
        ),
        bound_statement(PreparedModel::Insert(i), param_count, params, fl) matches Ok(
            PreparedModel::Insert(filled),
        ) ==> prepared_started(db, PreparedModel::Insert(i), param_count, params, fl) == started(
            db,
            StatementModel::Insert(filled),
            fl,
        ),
        bound_statement(PreparedModel::Insert(i), param_count, params, fl) is Err
            ==> prepared_started(
            db,
            PreparedModel::Insert(i),
            param_count,
            params,
            fl,
        ).result is Err,
{
}

/// A text is the statement that its heading says; a text without a statement, and one of
/// another kind, is an error.
pub proof fn a_text_is_what_its_heading_says(sql: Seq<char>)
    ensures
        match sql_heading(sql) {
            Err(e) => parsed(sql) == Err::<StatementModel, Fault>(Fault::Parse(e)),
            Ok(None) => parsed(sql) is Err,
            Ok(Some(h)) => match h {
                HeadingModel::Select => parsed(sql) matches Ok(StatementModel::Select(_)),
                HeadingModel::Insert => parsed(sql) matches Ok(StatementModel::Insert(_)),
                HeadingModel::Update => parsed(sql) matches Ok(StatementModel::Update(_)),
                HeadingModel::CreateTable => parsed(sql) matches Ok(StatementModel::CreateTable(_)),
                HeadingModel::Delete => parsed(sql) is Err || (parsed(sql) matches Ok(
                    StatementModel::Delete(_),
                )),
                HeadingModel::CreateIndex => parsed(sql) is Err || (parsed(sql) matches Ok(
                    StatementModel::CreateIndex(_),
                )),
                HeadingModel::Analyze => parsed(sql) is Err || (parsed(sql) matches Ok(
                    StatementModel::Analyze(_),
                )),
                HeadingModel::OtherQuery(_) => parsed(sql) is Err,
                HeadingModel::Other(_) => parsed(sql) is Err,
            },
        },
{
}

/// A row is changed only under an exclusive lock: where it cannot be had, the change is
/// refused and nothing that is stored or buffered is touched.
pub proof fn a_row_is_changed_under_a_lock(e: Engine, tx: u64, table_id: u64, row_id: u64)
    ensures
        ({
            let l = locked(e, tx, table_id, row_id);
            let code = LockKey { table_id, row_id }.code();
            let free = grantable(entry_of(e.locks, code), TransactionId(tx), LockMode::Exclusive);
            &&& l.1 is None <==> free
            &&& l.0.tables == e.tables
            &&& l.0.buffered == e.buffered
            &&& l.0.clock == e.clock
            &&& free ==> holds(l.0.locks, TransactionId(tx), code)
        }),
{
    let key = LockKey { table_id, row_id };
    crate::execution::bookkeeping_laws::a_request_is_granted_or_waits(
        e.locks,
        TransactionId(tx),
        key.code(),
        LockMode::Exclusive,
        TransactionId(if tx == 0 { 1 } else { 0 }),
        key.code(),
    );
}

/// A row counts as locked where somebody holds it.
pub proof fn a_locked_row_has_a_holder(l: Locks, code: u128)
    ensures
        locked_rows(l).contains(code) <==> exists|tx: TransactionId| #[trigger] holds(l, tx, code),
{
    if locked_rows(l).contains(code) {
        let tx = l.entries[code].holders[0].0;
        assert(listed(entry_of(l, code).holders, tx));
        assert(holds(l, tx, code));
    }
    if exists|tx: TransactionId| #[trigger] holds(l, tx, code) {
        let tx = choose|tx: TransactionId| #[trigger] holds(l, tx, code);
        assert(listed(entry_of(l, code).holders, tx));
    }
}

/// What an error says ends with what went wrong.
pub proof fn an_error_says_what_went_wrong(s: Seq<char>)
    ensures
        exists|head: Seq<char>| fault_text(Fault::Execution(s)) == #[trigger] (head + s),
        exists|head: Seq<char>| fault_text(Fault::Parse(s)) == #[trigger] (head + s),
        exists|head: Seq<char>| fault_text(Fault::Binding(s)) == #[trigger] (head + s),
        exists|head: Seq<char>| fault_text(Fault::Transaction(s)) == #[trigger] (head + s),
{
    assert(fault_text(Fault::Execution(s)) == "Execution error: "@ + s);
    assert(fault_text(Fault::Parse(s)) == "Parsing error: "@ + s);
    assert(fault_text(Fault::Binding(s)) == "Binding error: "@ + s);
    assert(fault_text(Fault::Transaction(s)) == "Transaction error: "@ + s);
}

/// A `HAVING` clause is read on rows of the grouped columns that there are, followed by a
/// column for each aggregate call under the name that stands for it: a count is an integer,
/// the others are floats.
pub proof fn having_reads_keys_and_calls(
    schema: SchemaModel,
    group_by: Seq<Seq<char>>,
    calls: Seq<Call>,
    i: int,
)
    requires
        0 <= i < calls.len(),
    ensures
        ({
            let s = having_schema(schema, group_by, calls);
            let n = s.columns.len() - calls.len();
            &&& 0 <= n <= group_by.len()
            &&& s.columns[n + i].name == stand_in(i)
            &&& (s.columns[n + i].data_type == DataType::Integer) <==> calls[i].function
                == AggregateFn::Count
            &&& calls[i].function != AggregateFn::Count ==> s.columns[n + i].data_type
                == DataType::Float
            &&& (forall|k: int|
                0 <= k < group_by.len() ==> schema.position(#[trigger] group_by[k]) is Some) ==> n
                == group_by.len() && (forall|k: int|
                0 <= k < n ==> s.columns[k] == schema.columns[schema.position(
                    #[trigger] group_by[k],
                )->0])
        }),
{
    lemma_found(group_by, schema, group_by.len() as int);
}

proof fn lemma_found(names: Seq<Seq<char>>, schema: SchemaModel, n: int)
    requires
        0 <= n <= names.len(),
    ensures
        ({
            let found = crate::execution::grouping::found_columns(names, schema, n);
            &&& found.len() <= n
            &&& (forall|k: int|
                0 <= k < names.len() ==> schema.position(#[trigger] names[k]) is Some)
                ==> found.len() == n && (forall|k: int|
                0 <= k < n ==> found[k] == schema.columns[schema.position(#[trigger] names[k])->0])
        }),
    decreases n,
{
    if n > 0 {
        lemma_found(names, schema, n - 1);
    }
}

} // verus!
