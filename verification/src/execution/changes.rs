//! Changing rows: what a statement buffers in a transaction of its own.

use vstd::prelude::*;
use crate::error::{DatabaseError, Fault};
use crate::execution::aggregate::optional_text;
use crate::execution::catalog::{table_named, ColumnModel, SchemaModel, TableSchema};
use crate::execution::executor::{Db, QueryExecutor};
use crate::execution::join::nulls;
use crate::execution::lock_manager::{
    entry_of, given_up, grantable, requested, timeout_text, LockKey, LockMode,
};
use crate::execution::mvcc_store::{id_rows, stored_at, target, with_table, Write, WriteOp};
use crate::execution::oltp::{
    aborted, begun, buffer_of, rows_at, snapshots_in_the_past, with_write, Engine, OLTPEngine,
};
use crate::execution::operators::{copy_values, data, Datum, Tuple, Value};
use crate::execution::relation::{execution_error, execution_fault, short_row, short_row_error};
use crate::execution::row_codec::assignment::{
    assigned_value, assignment_fits, assignment_of, Assigned, CompiledAssignment,
};
use crate::execution::row_codec::bytes::{
    bits_of_integer, bytes_row, decode_row, encode_row, row_bytes,
};
use crate::execution::row_codec::literals::{
    boolean_text, literal_reading, parse_literal_checked, parse_value, shown, value_reading,
    value_to_string,
};
use crate::execution::row_codec::predicate::{keeps, predicate_of, CompiledPredicate, Expr};
use crate::execution::row_codec::tokens::{split_comparison, tokens_of};
use crate::execution::scan::{
    candidate_ids, first_mentions, stored_rows, unknown_table, without_repeats,
};
use crate::execution::transaction::TransactionId;
use crate::float::{FloatModel, Floats};
use crate::sql::parser::{
    text_pairs, text_rows, DeleteModel, DeleteStatement, InsertModel, InsertStatement, UpdateModel,
    UpdateStatement,
};
use crate::text::{join2, join3, join5, same, texts};

verus! {

// ---- what a statement leaves ------------------------------------------------------------

/// What a statement leaves: the engine, and the rows that it buffered, with their
/// ids, or a fault.
pub struct Outcome {
    pub engine: Engine,
    pub result: Result<Seq<(u64, Seq<Datum>)>, Fault>,
}

/// The outcome of a statement that is given up: its transaction is aborted.
pub open spec fn given_up_with(e: Engine, tx: u64, f: Fault) -> Outcome {
    Outcome { engine: aborted(e, tx), result: Err(f) }
}

/// The engine after a transaction asked for a row, and the fault where the row is
/// held by another.
pub open spec fn locked(e: Engine, tx: u64, table_id: u64, row_id: u64) -> (Engine, Option<Fault>) {
    let key = LockKey { table_id, row_id };
    let id = TransactionId(tx);
    let asked = requested(e.locks, id, key.code(), LockMode::Exclusive);
    if grantable(entry_of(e.locks, key.code()), id, LockMode::Exclusive) {
        (Engine { locks: asked, ..e }, None)
    } else {
        (
            Engine { locks: given_up(asked, id, key.code()), ..e },
            Some(Fault::Transaction(timeout_text(id, key))),
        )
    }
}

/// The engine after a transaction wrote to a row, and the fault where the row is
/// held by another.
pub open spec fn wrote(e: Engine, tx: u64, table_id: u64, row_id: u64, w: Write) -> (
    Engine,
    Option<Fault>,
) {
    let l = locked(e, tx, table_id, row_id);
    if l.1 is None {
        (with_write(l.0, tx, w), None)
    } else {
        l
    }
}

/// The engine in which a statement on a table begins.
pub open spec fn opened(e: Engine, table_id: u64) -> Engine {
    begun(Engine { tables: with_table(e.tables, table_id), ..e })
}

/// An outcome as exec code has it: the rows that were buffered, with their ids.
pub open spec fn staged_rows(v: Seq<(u64, Vec<Value>)>) -> Seq<(u64, Seq<Datum>)> {
    v.map_values(|r: (u64, Vec<Value>)| (r.0, data(r.1@)))
}

/// Rows that were buffered, or an error, as its model.
pub open spec fn staged_result(r: Result<Vec<(u64, Vec<Value>)>, DatabaseError>) -> Result<
    Seq<(u64, Seq<Datum>)>,
    Fault,
> {
    match r {
        Ok(v) => Ok(staged_rows(v@)),
        Err(e) => Err(e@),
    }
}

// ---- insertion --------------------------------------------------------------------------

/// The fault of a text that is no literal of its column's type.
pub open spec fn unsupported_value(raw: Seq<char>) -> Fault {
    execution_fault("Unsupported value expression: '"@ + raw + "'"@)
}

/// The fault of a column that a table does not have.
pub open spec fn unknown_column(name: Seq<char>) -> Fault {
    execution_fault("Unknown column '"@ + name + "'"@)
}

/// The values of a row that is written in the order of the columns, from the `i`-th
/// on, after `done`.
pub open spec fn values_in_order(
    columns: Seq<ColumnModel>,
    raw: Seq<Seq<char>>,
    i: int,
    done: Seq<Datum>,
    fl: FloatModel,
) -> Result<Seq<Datum>, Fault>
    decreases columns.len() - i,
{
    if 0 <= i < columns.len() && i < raw.len() {
        match literal_reading(raw[i], columns[i].data_type, fl) {
            Some(d) => values_in_order(columns, raw, i + 1, done.push(d), fl),
            None => Err(unsupported_value(raw[i])),
        }
    } else {
        Ok(done)
    }
}

/// The values of a row whose columns are named, from the `i`-th name on, put over
/// `done`.
pub open spec fn values_by_name(
    names: Seq<Seq<char>>,
    s: SchemaModel,
    raw: Seq<Seq<char>>,
    i: int,
    done: Seq<Datum>,
    fl: FloatModel,
) -> Result<Seq<Datum>, Fault>
    decreases names.len() - i,
{
    if 0 <= i < names.len() && i < raw.len() {
        match s.position(names[i]) {
            None => Err(unknown_column(names[i])),
            Some(c) => match literal_reading(raw[i], s.columns[c].data_type, fl) {
                Some(d) => values_by_name(names, s, raw, i + 1, done.update(c, d), fl),
                None => Err(unsupported_value(raw[i])),
            },
        }
    } else {
        Ok(done)
    }
}

/// The values of a row in the order of the columns. A column that is not named is
/// null.
pub open spec fn ordered_row(
    names: Seq<Seq<char>>,
    s: SchemaModel,
    raw: Seq<Seq<char>>,
    fl: FloatModel,
) -> Result<Seq<Datum>, Fault> {
    if names.len() == 0 {
        values_in_order(s.columns, raw, 0, Seq::empty(), fl)
    } else {
        values_by_name(
            names,
            s,
            raw,
            0,
            nulls(s.columns.len() as int),
            fl,
        )
    }
}

/// A value with its type.
pub open spec fn typed_text(d: Datum, fl: FloatModel) -> Seq<char> {
    match d {
        Datum::Integer(_) => "Integer("@ + shown(d, fl) + ")"@,
        Datum::Float(_) => "Float("@ + shown(d, fl) + ")"@,
        Datum::Text(s) => "String(\""@ + s + "\")"@,
        Datum::Boolean(b) => "Boolean("@ + boolean_text(b) + ")"@,
        Datum::Null => "Null"@,
    }
}

/// The fault of a primary key that is no integer.
pub open spec fn key_not_an_integer(d: Datum, fl: FloatModel) -> Fault {
    execution_fault("Primary key must be an integer, got "@ + typed_text(d, fl))
}

/// The fault of a table without a primary key.
pub open spec fn no_primary_key(name: Seq<char>) -> Fault {
    execution_fault(
        "Table '"@ + name
            + "' has no primary key; INSERT execution needs one to derive a row id"@,
    )
}

/// What buffering the rows of an insertion leaves, from the `i`-th on. A row's id is
/// its primary key.
pub open spec fn rows_inserted(
    e: Engine,
    tx: u64,
    s: SchemaModel,
    q: InsertModel,
    k: int,
    i: int,
    done: Seq<(u64, Seq<Datum>)>,
    fl: FloatModel,
) -> Outcome
    decreases q.values.len() - i,
{
    if 0 <= i < q.values.len() {
        match ordered_row(q.columns, s, q.values[i], fl) {
            Err(f) => given_up_with(e, tx, f),
            Ok(row) => if k < 0 || k >= row.len() {
                given_up_with(e, tx, short_row())
            } else {
                match row[k] {
                    Datum::Integer(n) => {
                        let table_id = s.table_id as u64;
                        let row_id = n as u64;
                        let w = wrote(
                            e,
                            tx,
                            table_id,
                            row_id,
                            Write::Insert { table_id, row_id, data: row_bytes(row) },
                        );
                        match w.1 {
                            Some(f) => given_up_with(w.0, tx, f),
                            None => rows_inserted(
                                w.0,
                                tx,
                                s,
                                q,
                                k,
                                i + 1,
                                done.push((row_id, row)),
                                fl,
                            ),
                        }
                    },
                    other => given_up_with(e, tx, key_not_an_integer(other, fl)),
                }
            },
        }
    } else {
        Outcome { engine: e, result: Ok(done) }
    }
}

/// What an insertion leaves before it is committed.
pub open spec fn insert_staged(db: Db, q: InsertModel, fl: FloatModel) -> Outcome {
    match table_named(db.catalog, q.table) {
        None => Outcome { engine: db.engine, result: Err(unknown_table(q.table)) },
        Some(s) => match s.key_position() {
            None => Outcome { engine: db.engine, result: Err(no_primary_key(s.name)) },
            Some(k) => rows_inserted(
                opened(db.engine, s.table_id as u64),
                db.engine.next_tx,
                s,
                q,
                k,
                0,
                Seq::empty(),
                fl,
            ),
        },
    }
}

// ---- which rows to change ---------------------------------------------------------------

/// The id that a comparison asks for: that of an equality of the primary key with
/// an integer literal.
pub open spec fn key_asked(s: SchemaModel, t: Seq<Seq<char>>, fl: FloatModel) -> Option<u64> {
    match s.key_position() {
        Some(k) => if t[1] == "="@ && s.position(t[0]) == Some(k) && s.position(t[2]) is None {
            match value_reading(t[2], s.columns[k].data_type, fl) {
                Datum::Integer(n) => Some(n as u64),
                _ => None,
            }
        } else {
            None
        },
        None => None,
    }
}

/// The rows among which a change looks for those that it is for: those that an index
/// yields where one serves, else all.
pub open spec fn write_candidates(
    db: Db,
    s: SchemaModel,
    clause: Option<Seq<char>>,
    fl: FloatModel,
) -> Seq<(u64, Seq<u8>)> {
    let id = s.table_id as u64;
    let all = rows_at(db.engine.tables, id, db.engine.clock);
    match clause {
        None => all,
        Some(p) => {
            let t = tokens_of(p);
            if t.len() != 3 {
                all
            } else {
                match key_asked(s, t, fl) {
                    Some(row_id) => match stored_at(
                        db.engine.tables,
                        id,
                        row_id,
                        db.engine.clock,
                    ) {
                        Some(b) => seq![(row_id, b)],
                        None => Seq::empty(),
                    },
                    None => match candidate_ids(db, s, t[0], t[1], t[2], fl) {
                        Some(ids) => stored_rows(
                            db,
                            id,
                            first_mentions(ids, ids.len() as int),
                            0,
                        ),
                        None => all,
                    },
                }
            }
        },
    }
}

/// The predicate of a clause, where there is one.
pub open spec fn clause_predicate(clause: Option<Seq<char>>, s: SchemaModel, fl: FloatModel) -> Result<
    Option<Expr>,
    Fault,
> {
    match clause {
        None => Ok(None),
        Some(p) => match predicate_of(p, s, fl) {
            Some(e) => Ok(Some(e)),
            None => Err(execution_fault("Unsupported WHERE clause: '"@ + p + "'"@)),
        },
    }
}

/// Whether a change is for a row.
pub open spec fn is_meant(clause: Option<Expr>, row: Seq<Datum>, fl: FloatModel) -> bool {
    match clause {
        Some(e) => keeps(e, row, fl) == Some(true),
        None => true,
    }
}

// ---- update -----------------------------------------------------------------------------

/// The fault of an assignment to the primary key.
pub open spec fn key_assigned() -> Fault {
    execution_fault("Updating the primary key column is not supported"@)
}

/// The fault of an assignment that cannot be read.
pub open spec fn unsupported_assignment(column: Seq<char>, raw: Seq<char>) -> Fault {
    execution_fault("Unsupported SET expression: '"@ + column + " = "@ + raw + "'"@)
}

/// The assignments from the `i`-th on, each with the place of its column, after
/// `done`.
pub open spec fn assignments_read(
    s: SchemaModel,
    pairs: Seq<(Seq<char>, Seq<char>)>,
    i: int,
    done: Seq<(int, Assigned)>,
    fl: FloatModel,
) -> Result<Seq<(int, Assigned)>, Fault>
    decreases pairs.len() - i,
{
    if 0 <= i < pairs.len() {
        match s.position(pairs[i].0) {
            None => Err(unknown_column(pairs[i].0)),
            Some(c) => if s.key_position() == Some(c) {
                Err(key_assigned())
            } else {
                match assignment_of(pairs[i].1, s, s.columns[c].data_type, fl) {
                    None => Err(unsupported_assignment(pairs[i].0, pairs[i].1)),
                    Some(a) => assignments_read(s, pairs, i + 1, done.push((c, a)), fl),
                }
            },
        }
    } else {
        Ok(done)
    }
}

/// The fault of an assignment whose result is no 64-bit integer.
pub open spec fn too_large() -> Fault {
    execution_fault("Arithmetic overflow in SET"@)
}

/// A row with the assignments from the `i`-th on made. Each sees the row as it was.
pub open spec fn row_assigned(
    assignments: Seq<(int, Assigned)>,
    i: int,
    was: Seq<Datum>,
    row: Seq<Datum>,
    fl: FloatModel,
) -> Result<Seq<Datum>, Fault>
    decreases assignments.len() - i,
{
    if 0 <= i < assignments.len() {
        let (c, a) = assignments[i];
        if c < 0 || c >= row.len() {
            Err(short_row())
        } else if !assignment_fits(a, was) {
            Err(too_large())
        } else {
            row_assigned(
                assignments,
                i + 1,
                was,
                row.update(c, assigned_value(a, was, fl)),
                fl,
            )
        }
    } else {
        Ok(row)
    }
}

/// What buffering the changed rows leaves, from the `i`-th candidate on.
pub open spec fn rows_updated(
    e: Engine,
    tx: u64,
    table_id: u64,
    clause: Option<Expr>,
    assignments: Seq<(int, Assigned)>,
    rows: Seq<(u64, Seq<u8>)>,
    i: int,
    done: Seq<(u64, Seq<Datum>)>,
    fl: FloatModel,
) -> Outcome
    decreases rows.len() - i,
{
    if 0 <= i < rows.len() {
        let row_id = rows[i].0;
        let next = rows_updated(e, tx, table_id, clause, assignments, rows, i + 1, done, fl);
        match bytes_row(rows[i].1) {
            None => next,
            Some(row) => if !is_meant(clause, row, fl) {
                next
            } else {
                let l = locked(e, tx, table_id, row_id);
                match l.1 {
                    Some(f) => given_up_with(l.0, tx, f),
                    None => match row_assigned(assignments, 0, row, row, fl) {
                        Err(f) => given_up_with(l.0, tx, f),
                        Ok(now) => {
                            let w = wrote(
                                l.0,
                                tx,
                                table_id,
                                row_id,
                                Write::Update { table_id, row_id, data: row_bytes(now) },
                            );
                            match w.1 {
                                Some(f) => given_up_with(w.0, tx, f),
                                None => rows_updated(
                                    w.0,
                                    tx,
                                    table_id,
                                    clause,
                                    assignments,
                                    rows,
                                    i + 1,
                                    done.push((row_id, now)),
                                    fl,
                                ),
                            }
                        },
                    },
                }
            },
        }
    } else {
        Outcome { engine: e, result: Ok(done) }
    }
}

/// What an update leaves before it is committed.
pub open spec fn update_staged(db: Db, q: UpdateModel, fl: FloatModel) -> Outcome {
    match table_named(db.catalog, q.table) {
        None => Outcome { engine: db.engine, result: Err(unknown_table(q.table)) },
        Some(s) => match assignments_read(s, q.assignments, 0, Seq::empty(), fl) {
            Err(f) => Outcome { engine: db.engine, result: Err(f) },
            Ok(assignments) => {
                let e = opened(db.engine, s.table_id as u64);
                let tx = db.engine.next_tx;
                match clause_predicate(q.where_clause, s, fl) {
                    Err(f) => given_up_with(e, tx, f),
                    Ok(clause) => rows_updated(
                        e,
                        tx,
                        s.table_id as u64,
                        clause,
                        assignments,
                        write_candidates(Db { engine: e, ..db }, s, q.where_clause, fl),
                        0,
                        Seq::empty(),
                        fl,
                    ),
                }
            },
        },
    }
}

// ---- deletion ---------------------------------------------------------------------------

/// What buffering the deletions leaves, from the `i`-th candidate on.
pub open spec fn rows_deleted(
    e: Engine,
    tx: u64,
    table_id: u64,
    clause: Option<Expr>,
    rows: Seq<(u64, Seq<u8>)>,
    i: int,
    done: Seq<(u64, Seq<Datum>)>,
    fl: FloatModel,
) -> Outcome
    decreases rows.len() - i,
{
    if 0 <= i < rows.len() {
        let row_id = rows[i].0;
        let next = rows_deleted(e, tx, table_id, clause, rows, i + 1, done, fl);
        match bytes_row(rows[i].1) {
            None => next,
            Some(row) => if !is_meant(clause, row, fl) {
                next
            } else {
                let w = wrote(e, tx, table_id, row_id, Write::Delete { table_id, row_id });
                match w.1 {
                    Some(f) => given_up_with(w.0, tx, f),
                    None => rows_deleted(
                        w.0,
                        tx,
                        table_id,
                        clause,
                        rows,
                        i + 1,
                        done.push((row_id, row)),
                        fl,
                    ),
                }
            },
        }
    } else {
        Outcome { engine: e, result: Ok(done) }
    }
}

/// What a deletion leaves before it is committed.
pub open spec fn delete_staged(db: Db, q: DeleteModel, fl: FloatModel) -> Outcome {
    match table_named(db.catalog, q.table) {
        None => Outcome { engine: db.engine, result: Err(unknown_table(q.table)) },
        Some(s) => {
            let e = opened(db.engine, s.table_id as u64);
            let tx = db.engine.next_tx;
            match clause_predicate(q.where_clause, s, fl) {
                Err(f) => given_up_with(e, tx, f),
                Ok(clause) => rows_deleted(
                    e,
                    tx,
                    s.table_id as u64,
                    clause,
                    write_candidates(Db { engine: e, ..db }, s, q.where_clause, fl),
                    0,
                    Seq::empty(),
                    fl,
                ),
            }
        },
    }
}

// ---- making changes ---------------------------------------------------------------------

fn lock_row(oltp: &mut OLTPEngine, tx: TransactionId, table_id: u64, row_id: u64) -> (r: Result<
    (),
    DatabaseError,
>)
    requires
        old(oltp).wf(),
    ensures
        final(oltp).wf(),
        ({
            let l = locked(old(oltp)@, tx.0, table_id, row_id);
            &&& final(oltp)@ == l.0
            &&& match r {
                Ok(_) => l.1 is None,
                Err(e) => l.1 == Some(e@),
            }
        }),
{
    let ghost before = oltp@;
    let r = oltp.locks.acquire_exclusive(tx, LockKey::new(table_id, row_id));
    assert(oltp@ =~= (Engine { locks: oltp@.locks, ..before }));
    r
}

fn write_row_of(oltp: &mut OLTPEngine, tx: TransactionId, op: WriteOp) -> (r: Result<
    (),
    DatabaseError,
>)
    requires
        old(oltp).wf(),
    ensures
        final(oltp).wf(),
        ({
            let at = target(op@);
            let w = wrote(old(oltp)@, tx.0, at.0, at.1, op@);
            &&& final(oltp)@ == w.0
            &&& match r {
                Ok(_) => w.1 is None,
                Err(e) => w.1 == Some(e@),
            }
        }),
{
    let ghost before = oltp@;
    let r = oltp.write(tx, op);
    proof {
        let at = target(op@);
        let w = wrote(before, tx.0, at.0, at.1, op@);
        assert(oltp@ =~= w.0);
    }
    r
}

fn open_table(oltp: &mut OLTPEngine, table_id: u64) -> (r: TransactionId)
    requires
        old(oltp).wf(),
    ensures
        final(oltp).wf(),
        final(oltp)@ == opened(old(oltp)@, table_id),
        r.0 == old(oltp)@.next_tx,
{
    oltp.create_table(table_id);
    oltp.begin()
}

fn read_values_in_order<F: Floats>(schema: &TableSchema, raw: &Vec<String>, floats: &F) -> (r: Result<
    Vec<Value>,
    DatabaseError,
>)
    requires
        floats.sound(),
    ensures
        match r {
            Ok(v) => values_in_order(
                schema@.columns,
                texts(raw@),
                0,
                Seq::empty(),
                floats.model(),
            ) == Ok::<Seq<Datum>, Fault>(data(v@)),
            Err(e) => values_in_order(
                schema@.columns,
                texts(raw@),
                0,
                Seq::empty(),
                floats.model(),
            ) == Err::<Seq<Datum>, Fault>(e@),
        },
{
    let ghost columns = schema@.columns;
    let ghost all = texts(raw@);
    let ghost fl = floats.model();
    let mut out: Vec<Value> = Vec::new();
    let mut i: usize = 0;
    assert(data(out@) =~= Seq::<Datum>::empty());
    while i < schema.columns.len() && i < raw.len()
        invariant
            i <= schema.columns@.len(),
            i <= raw@.len(),
            floats.sound(),
            columns == schema@.columns,
            all == texts(raw@),
            fl == floats.model(),
            values_in_order(columns, all, 0, Seq::empty(), fl) == values_in_order(
                columns,
                all,
                i as int,
                data(out@),
                fl,
            ),
        decreases schema.columns@.len() - i,
    {
        assert(columns[i as int] == schema.columns@[i as int]@);
        assert(all[i as int] == raw@[i as int]@);
        let ghost before = data(out@);
        match parse_literal_checked(raw[i].as_str(), schema.columns[i].data_type, floats) {
            Some(v) => {
                out.push(v);
                assert(data(out@) =~= before.push(v@));
            },
            None => {
                return Err(
                    execution_error("Unsupported value expression: '", raw[i].as_str(), "'"),
                );
            },
        }
        i = i + 1;
    }
    Ok(out)
}

fn null_values(n: usize) -> (r: Vec<Value>)
    ensures
        data(r@) == nulls(n as int),
        r@.len() == n,
{
    let mut out: Vec<Value> = Vec::new();
    let mut i: usize = 0;
    while i < n
        invariant
            i <= n,
            out@.len() == i,
            forall|k: int| 0 <= k < i ==> (#[trigger] out@[k])@ == Datum::Null,
        decreases n - i,
    {
        out.push(Value::Null);
        i = i + 1;
    }
    assert(data(out@) =~= nulls(n as int));
    out
}

fn read_values_by_name<F: Floats>(
    names: &Vec<String>,
    schema: &TableSchema,
    raw: &Vec<String>,
    floats: &F,
) -> (r: Result<Vec<Value>, DatabaseError>)
    requires
        floats.sound(),
    ensures
        ({
            let want = values_by_name(
                texts(names@),
                schema@,
                texts(raw@),
                0,
                nulls(schema@.columns.len() as int),
                floats.model(),
            );
            match r {
                Ok(v) => want == Ok::<Seq<Datum>, Fault>(data(v@)),
                Err(e) => want == Err::<Seq<Datum>, Fault>(e@),
            }
        }),
{
    let ghost all_names = texts(names@);
    let ghost all = texts(raw@);
    let ghost fl = floats.model();
    let ghost start = nulls(schema@.columns.len() as int);
    let mut out = null_values(schema.columns.len());
    let mut i: usize = 0;
    assert(data(out@) =~= start);
    while i < names.len() && i < raw.len()
        invariant
            i <= names@.len(),
            i <= raw@.len(),
            floats.sound(),
            all_names == texts(names@),
            all == texts(raw@),
            fl == floats.model(),
            start == nulls(schema@.columns.len() as int),
            out@.len() == schema.columns@.len(),
            values_by_name(all_names, schema@, all, 0, start, fl) == values_by_name(
                all_names,
                schema@,
                all,
                i as int,
                data(out@),
                fl,
            ),
        decreases names@.len() - i,
    {
        assert(all_names[i as int] == names@[i as int]@);
        assert(all[i as int] == raw@[i as int]@);
        let ghost before = data(out@);
        let c: usize = match schema.position(names[i].as_str()) {
            Some(c) => c,
            None => {
                return Err(execution_error("Unknown column '", names[i].as_str(), "'"));
            },
        };
        assert(schema@.columns[c as int] == schema.columns@[c as int]@);
        match parse_literal_checked(raw[i].as_str(), schema.columns[c].data_type, floats) {
            Some(v) => {
                out.set(c, v);
                assert(data(out@) =~= before.update(c as int, v@));
            },
            None => {
                return Err(
                    execution_error("Unsupported value expression: '", raw[i].as_str(), "'"),
                );
            },
        }
        i = i + 1;
    }
    Ok(out)
}

/// The values of a row of an insertion, in the order of the columns.
pub fn order_insert_row<F: Floats>(
    insert: &InsertStatement,
    schema: &TableSchema,
    row: &Vec<String>,
    floats: &F,
) -> (r: Result<Vec<Value>, DatabaseError>)
    requires
        floats.sound(),
    ensures
        match r {
            Ok(v) => ordered_row(insert@.columns, schema@, texts(row@), floats.model()) == Ok::<
                Seq<Datum>,
                Fault,
            >(data(v@)),
            Err(e) => ordered_row(insert@.columns, schema@, texts(row@), floats.model()) == Err::<
                Seq<Datum>,
                Fault,
            >(e@),
        },
{
    assert(insert@.columns.len() == insert.columns@.len());
    if insert.columns.len() == 0 {
        read_values_in_order(schema, row, floats)
    } else {
        read_values_by_name(&insert.columns, schema, row, floats)
    }
}

fn typed_text_of<F: Floats>(v: &Value, floats: &F) -> (r: String)
    requires
        floats.sound(),
    ensures
        r@ == typed_text(v@, floats.model()),
{
    let text = value_to_string(v, floats);
    match v {
        Value::Integer(_) => join3("Integer(", text.as_str(), ")"),
        Value::Float(_) => join3("Float(", text.as_str(), ")"),
        Value::String(s) => join3("String(\"", s.as_str(), "\")"),
        Value::Boolean(_) => join3("Boolean(", text.as_str(), ")"),
        Value::Null => "Null".to_owned(),
    }
}

impl QueryExecutor {
    /// Buffers the rows of an insertion in a transaction of its own.
    pub fn stage_insert<F: Floats>(&mut self, insert: &InsertStatement, floats: &F) -> (r: Result<
        Vec<(u64, Vec<Value>)>,
        DatabaseError,
    >)
        requires
            old(self).wf(),
            floats.sound(),
        ensures
            final(self).wf(),
            ({
                let o = insert_staged(old(self)@, insert@, floats.model());
                &&& final(self)@ == (Db { engine: o.engine, ..old(self)@ })
                &&& staged_result(r) == o.result
            }),
    {
        let schema = match self.schema_of(insert.table.as_str()) {
            Ok(s) => s,
            Err(e) => {
                return Err(e);
            },
        };
        let k: usize = match schema.key_position() {
            Some(k) => k,
            None => {
                return Err(
                    execution_error(
                        "Table '",
                        schema.name.as_str(),
                        "' has no primary key; INSERT execution needs one to derive a row id",
                    ),
                );
            },
        };
        let ghost db = self@;
        let ghost fl = floats.model();
        let table_id: u64 = schema.table_id as u64;
        let tx = open_table(&mut self.oltp, table_id);
        let ghost start = self.oltp@;
        let ghost want = rows_inserted(
            start,
            tx.0,
            schema@,
            insert@,
            k as int,
            0,
            Seq::empty(),
            fl,
        );
        let mut staged: Vec<(u64, Vec<Value>)> = Vec::new();
        let mut i: usize = 0;
        assert(staged_rows(staged@) =~= Seq::<(u64, Seq<Datum>)>::empty());
        while i < insert.values.len()
            invariant
                i <= insert.values@.len(),
                self.wf(),
                floats.sound(),
                fl == floats.model(),
                table_id == schema@.table_id as u64,
                self@ == (Db { engine: self.oltp@, ..db }),
                insert@.values == text_rows(insert.values@),
                want == rows_inserted(
                    self.oltp@,
                    tx.0,
                    schema@,
                    insert@,
                    k as int,
                    i as int,
                    staged_rows(staged@),
                    fl,
                ),
                db == old(self)@,
                want == insert_staged(db, insert@, fl),
            decreases insert.values@.len() - i,
        {
            assert(insert@.values[i as int] == texts(insert.values@[i as int]@));
            let ghost before = staged_rows(staged@);
            let values = match order_insert_row(insert, &schema, &insert.values[i], floats) {
                Ok(v) => v,
                Err(e) => {
                    self.oltp.abort(tx);
                    return Err(e);
                },
            };
            assert(data(values@).len() == values@.len());
            if k >= values.len() {
                self.oltp.abort(tx);
                return Err(short_row_error());
            }
            assert(data(values@)[k as int] == values@[k as int]@);
            let row_id: u64 = match &values[k] {
                Value::Integer(n) => bits_of_integer(*n),
                other => {
                    let text = typed_text_of(other, floats);
                    self.oltp.abort(tx);
                    return Err(
                        DatabaseError::ExecutionError(
                            join2("Primary key must be an integer, got ", text.as_str()),
                        ),
                    );
                },
            };
            let bytes = match encode_row(&values) {
                Ok(b) => b,
                Err(e) => {
                    self.oltp.abort(tx);
                    return Err(e);
                },
            };
            let op = WriteOp::Insert { table_id, row_id, data: bytes };
            match write_row_of(&mut self.oltp, tx, op) {
                Ok(_) => {},
                Err(e) => {
                    self.oltp.abort(tx);
                    return Err(e);
                },
            }
            staged.push((row_id, values));
            assert(staged_rows(staged@) =~= before.push((row_id, data(values@))));
            i = i + 1;
        }
        Ok(staged)
    }

    fn asked_key<F: Floats>(
        schema: &TableSchema,
        left: &String,
        op: &String,
        right: &String,
        floats: &F,
    ) -> (r: Option<u64>)
        requires
            floats.sound(),
        ensures
            r == key_asked(schema@, seq![left@, op@, right@], floats.model()),
    {
        let k: usize = match schema.key_position() {
            Some(k) => k,
            None => {
                return None;
            },
        };
        let column = &schema.columns[k];
        assert(schema@.columns[k as int] == column@);
        if !same(op.as_str(), "=") || schema.position(right.as_str()).is_some() {
            return None;
        }
        match schema.position(left.as_str()) {
            Some(c) if c == k => {},
            _ => {
                return None;
            },
        }
        match parse_value(right.as_str(), column.data_type, floats) {
            Value::Integer(n) => Some(bits_of_integer(n)),
            _ => None,
        }
    }

    /// The rows among which a change looks for those that it is for: those that an
    /// index yields where one serves, else all.
    pub fn candidate_rows_for_write<F: Floats>(
        &self,
        schema: &TableSchema,
        where_clause: &Option<String>,
        floats: &F,
    ) -> (r: Vec<(u64, Vec<u8>)>)
        requires
            self.wf(),
            floats.sound(),
        ensures
            id_rows(r@) == write_candidates(
                self@,
                schema@,
                optional_text(*where_clause),
                floats.model(),
            ),
    {
        let table_id: u64 = schema.table_id as u64;
        if let Some(predicate) = where_clause {
            if let Some((left, op, right)) = split_comparison(predicate.as_str()) {
                if let Some(row_id) = Self::asked_key(schema, &left, &op, &right, floats) {
                    let mut out: Vec<(u64, Vec<u8>)> = Vec::new();
                    match self.oltp.read_committed(table_id, row_id) {
                        Some(bytes) => {
                            let ghost b = bytes@;
                            out.push((row_id, bytes));
                            assert(id_rows(out@) =~= seq![(row_id, b)]);
                        },
                        None => {
                            assert(id_rows(out@) =~= Seq::<(u64, Seq<u8>)>::empty());
                        },
                    }
                    return out;
                }
                if let Some(ids) = self.secondary_index_candidates(
                    schema,
                    left.as_str(),
                    op.as_str(),
                    right.as_str(),
                    floats,
                ) {
                    let once = without_repeats(&ids);
                    return self.read_ids(table_id, &once);
                }
            }
        }
        self.oltp.scan_committed(table_id)
    }
}

/// Assignments with the places of their columns.
pub open spec fn assignment_models(v: Seq<(usize, CompiledAssignment)>) -> Seq<(int, Assigned)> {
    v.map_values(|a: (usize, CompiledAssignment)| (a.0 as int, a.1.model()))
}

fn read_assignments<F: Floats>(schema: &TableSchema, pairs: &Vec<(String, String)>, floats: &F) -> (r:
    Result<Vec<(usize, CompiledAssignment)>, DatabaseError>)
    requires
        floats.sound(),
    ensures
        ({
            let want = assignments_read(
                schema@,
                text_pairs(pairs@),
                0,
                Seq::empty(),
                floats.model(),
            );
            match r {
                Ok(v) => want == Ok::<Seq<(int, Assigned)>, Fault>(assignment_models(v@)),
                Err(e) => want == Err::<Seq<(int, Assigned)>, Fault>(e@),
            }
        }),
{
    let ghost all = text_pairs(pairs@);
    let ghost fl = floats.model();
    let key = schema.key_position();
    let mut out: Vec<(usize, CompiledAssignment)> = Vec::new();
    let mut i: usize = 0;
    assert(assignment_models(out@) =~= Seq::<(int, Assigned)>::empty());
    while i < pairs.len()
        invariant
            i <= pairs@.len(),
            floats.sound(),
            all == text_pairs(pairs@),
            fl == floats.model(),
            match key {
                Some(k) => schema@.key_position() == Some(k as int),
                None => schema@.key_position() is None,
            },
            assignments_read(schema@, all, 0, Seq::empty(), fl) == assignments_read(
                schema@,
                all,
                i as int,
                assignment_models(out@),
                fl,
            ),
        decreases pairs@.len() - i,
    {
        assert(all[i as int] == (pairs@[i as int].0@, pairs@[i as int].1@));
        let ghost before = assignment_models(out@);
        let name = pairs[i].0.as_str();
        let raw = pairs[i].1.as_str();
        let c: usize = match schema.position(name) {
            Some(c) => c,
            None => {
                return Err(execution_error("Unknown column '", name, "'"));
            },
        };
        let is_key = match key {
            Some(k) => k == c,
            None => false,
        };
        if is_key {
            return Err(
                DatabaseError::ExecutionError(
                    "Updating the primary key column is not supported".to_owned(),
                ),
            );
        }
        assert(schema@.columns[c as int] == schema.columns@[c as int]@);
        match CompiledAssignment::compile(raw, schema, schema.columns[c].data_type, floats) {
            Some(a) => {
                let ghost m = (c as int, a.model());
                out.push((c, a));
                assert(assignment_models(out@) =~= before.push(m));
            },
            None => {
                return Err(
                    DatabaseError::ExecutionError(
                        join5("Unsupported SET expression: '", name, " = ", raw, "'"),
                    ),
                );
            },
        }
        i = i + 1;
    }
    Ok(out)
}

fn assign_row<F: Floats>(
    assignments: &Vec<(usize, CompiledAssignment)>,
    was: &Tuple,
    floats: &F,
) -> (r: Result<Vec<Value>, DatabaseError>)
    requires
        floats.sound(),
    ensures
        ({
            let want = row_assigned(
                assignment_models(assignments@),
                0,
                was@,
                was@,
                floats.model(),
            );
            match r {
                Ok(v) => want == Ok::<Seq<Datum>, Fault>(data(v@)),
                Err(e) => want == Err::<Seq<Datum>, Fault>(e@),
            }
        }),
{
    let ghost all = assignment_models(assignments@);
    let ghost fl = floats.model();
    let mut now: Vec<Value> = copy_values(&was.values);
    let mut i: usize = 0;
    while i < assignments.len()
        invariant
            i <= assignments@.len(),
            floats.sound(),
            all == assignment_models(assignments@),
            fl == floats.model(),
            row_assigned(all, 0, was@, was@, fl) == row_assigned(
                all,
                i as int,
                was@,
                data(now@),
                fl,
            ),
        decreases assignments@.len() - i,
    {
        let a = &assignments[i];
        assert(all[i as int] == (a.0 as int, a.1.model()));
        let ghost before = data(now@);
        if a.0 >= now.len() {
            return Err(short_row_error());
        }
        if !a.1.fits(was) {
            return Err(DatabaseError::ExecutionError("Arithmetic overflow in SET".to_owned()));
        }
        let v = a.1.eval(was, floats);
        now.set(a.0, v);
        assert(data(now@) =~= before.update(a.0 as int, v@));
        i = i + 1;
    }
    Ok(now)
}

/// A predicate that may be missing, as its model.
pub open spec fn optional_predicate(p: Option<CompiledPredicate>) -> Option<Expr> {
    match p {
        Some(c) => Some(c.model()),
        None => None,
    }
}

fn read_clause<F: Floats>(clause: &Option<String>, schema: &TableSchema, floats: &F) -> (r: Result<
    Option<CompiledPredicate>,
    DatabaseError,
>)
    requires
        floats.sound(),
    ensures
        ({
            let want = clause_predicate(optional_text(*clause), schema@, floats.model());
            match r {
                Ok(p) => want == Ok::<Option<Expr>, Fault>(optional_predicate(p)),
                Err(e) => want == Err::<Option<Expr>, Fault>(e@),
            }
        }),
{
    match clause {
        None => Ok(None),
        Some(p) => match CompiledPredicate::compile(p.as_str(), schema, floats) {
            Some(c) => Ok(Some(c)),
            None => Err(execution_error("Unsupported WHERE clause: '", p.as_str(), "'")),
        },
    }
}

fn row_is_meant<F: Floats>(clause: &Option<CompiledPredicate>, row: &Tuple, floats: &F) -> (r: bool)
    requires
        floats.sound(),
    ensures
        r == is_meant(optional_predicate(*clause), row@, floats.model()),
{
    match clause {
        Some(c) => match c.eval(row, floats) {
            Some(b) => b,
            None => false,
        },
        None => true,
    }
}

impl QueryExecutor {
    /// Buffers the changed rows of an update in a transaction of its own.
    pub fn stage_update<F: Floats>(&mut self, update: &UpdateStatement, floats: &F) -> (r: Result<
        Vec<(u64, Vec<Value>)>,
        DatabaseError,
    >)
        requires
            old(self).wf(),
            floats.sound(),
        ensures
            final(self).wf(),
            ({
                let o = update_staged(old(self)@, update@, floats.model());
                &&& final(self)@ == (Db { engine: o.engine, ..old(self)@ })
                &&& staged_result(r) == o.result
            }),
    {
        let schema = match self.schema_of(update.table.as_str()) {
            Ok(s) => s,
            Err(e) => {
                return Err(e);
            },
        };
        let assignments = match read_assignments(&schema, &update.assignments, floats) {
            Ok(a) => a,
            Err(e) => {
                return Err(e);
            },
        };
        let ghost db = self@;
        let ghost fl = floats.model();
        let ghost all = assignment_models(assignments@);
        let table_id: u64 = schema.table_id as u64;
        let tx = open_table(&mut self.oltp, table_id);
        let clause = match read_clause(&update.where_clause, &schema, floats) {
            Ok(c) => c,
            Err(e) => {
                self.oltp.abort(tx);
                return Err(e);
            },
        };
        let ghost expr = optional_predicate(clause);
        assert(self@ == (Db { engine: self.oltp@, ..db }));
        let rows = self.candidate_rows_for_write(&schema, &update.where_clause, floats);
        let ghost stored = id_rows(rows@);
        let ghost want = update_staged(db, update@, fl);
        let mut staged: Vec<(u64, Vec<Value>)> = Vec::new();
        let mut i: usize = 0;
        assert(staged_rows(staged@) =~= Seq::<(u64, Seq<Datum>)>::empty());
        while i < rows.len()
            invariant
                i <= rows@.len(),
                self.wf(),
                floats.sound(),
                fl == floats.model(),
                db == old(self)@,
                self@ == (Db { engine: self.oltp@, ..db }),
                stored == id_rows(rows@),
                all == assignment_models(assignments@),
                expr == optional_predicate(clause),
                want == update_staged(db, update@, fl),
                want == rows_updated(
                    self.oltp@,
                    tx.0,
                    table_id,
                    expr,
                    all,
                    stored,
                    i as int,
                    staged_rows(staged@),
                    fl,
                ),
            decreases rows@.len() - i,
        {
            assert(stored[i as int] == (rows@[i as int].0, rows@[i as int].1@));
            let ghost before = staged_rows(staged@);
            let row_id: u64 = rows[i].0;
            if let Some(row) = decode_row(rows[i].1.as_slice()) {
                if row_is_meant(&clause, &row, floats) {
                    match lock_row(&mut self.oltp, tx, table_id, row_id) {
                        Ok(_) => {},
                        Err(e) => {
                            self.oltp.abort(tx);
                            return Err(e);
                        },
                    }
                    let now = match assign_row(&assignments, &row, floats) {
                        Ok(v) => v,
                        Err(e) => {
                            self.oltp.abort(tx);
                            return Err(e);
                        },
                    };
                    let bytes = match encode_row(&now) {
                        Ok(b) => b,
                        Err(e) => {
                            self.oltp.abort(tx);
                            return Err(e);
                        },
                    };
                    let op = WriteOp::Update { table_id, row_id, data: bytes };
                    match write_row_of(&mut self.oltp, tx, op) {
                        Ok(_) => {},
                        Err(e) => {
                            self.oltp.abort(tx);
                            return Err(e);
                        },
                    }
                    staged.push((row_id, now));
                    assert(staged_rows(staged@) =~= before.push((row_id, data(now@))));
                }
            }
            i = i + 1;
        }
        Ok(staged)
    }

    /// Buffers the deletions of a statement in a transaction of its own.
    pub fn stage_delete<F: Floats>(&mut self, delete: &DeleteStatement, floats: &F) -> (r: Result<
        Vec<(u64, Vec<Value>)>,
        DatabaseError,
    >)
        requires
            old(self).wf(),
            floats.sound(),
        ensures
            final(self).wf(),
            ({
                let o = delete_staged(old(self)@, delete@, floats.model());
                &&& final(self)@ == (Db { engine: o.engine, ..old(self)@ })
                &&& staged_result(r) == o.result
            }),
    {
        let schema = match self.schema_of(delete.table.as_str()) {
            Ok(s) => s,
            Err(e) => {
                return Err(e);
            },
        };
        let ghost db = self@;
        let ghost fl = floats.model();
        let table_id: u64 = schema.table_id as u64;
        let tx = open_table(&mut self.oltp, table_id);
        let clause = match read_clause(&delete.where_clause, &schema, floats) {
            Ok(c) => c,
            Err(e) => {
                self.oltp.abort(tx);
                return Err(e);
            },
        };
        let ghost expr = optional_predicate(clause);
        assert(self@ == (Db { engine: self.oltp@, ..db }));
        let rows = self.candidate_rows_for_write(&schema, &delete.where_clause, floats);
        let ghost stored = id_rows(rows@);
        let ghost want = delete_staged(db, delete@, fl);
        let mut staged: Vec<(u64, Vec<Value>)> = Vec::new();
        let mut i: usize = 0;
        assert(staged_rows(staged@) =~= Seq::<(u64, Seq<Datum>)>::empty());
        while i < rows.len()
            invariant
                i <= rows@.len(),
                self.wf(),
                floats.sound(),
                fl == floats.model(),
                db == old(self)@,
                self@ == (Db { engine: self.oltp@, ..db }),
                stored == id_rows(rows@),
                expr == optional_predicate(clause),
                want == delete_staged(db, delete@, fl),
                want == rows_deleted(
                    self.oltp@,
                    tx.0,
                    table_id,
                    expr,
                    stored,
                    i as int,
                    staged_rows(staged@),
                    fl,
                ),
            decreases rows@.len() - i,
        {
            assert(stored[i as int] == (rows@[i as int].0, rows@[i as int].1@));
            let ghost before = staged_rows(staged@);
            let row_id: u64 = rows[i].0;
            if let Some(row) = decode_row(rows[i].1.as_slice()) {
                if row_is_meant(&clause, &row, floats) {
                    let op = WriteOp::Delete { table_id, row_id };
                    match write_row_of(&mut self.oltp, tx, op) {
                        Ok(_) => {},
                        Err(e) => {
                            self.oltp.abort(tx);
                            return Err(e);
                        },
                    }
                    let ghost gone = (row_id, row@);
                    staged.push((row_id, row.values));
                    assert(staged_rows(staged@) =~= before.push(gone));
                }
            }
            i = i + 1;
        }
        Ok(staged)
    }
}

// ---- what buffering leaves --------------------------------------------------------------

/// The writes that insert some rows.
pub open spec fn insertions(table_id: u64, rows: Seq<(u64, Seq<Datum>)>) -> Seq<Write> {
    rows.map_values(
        |r: (u64, Seq<Datum>)| Write::Insert { table_id, row_id: r.0, data: row_bytes(r.1) },
    )
}

/// The writes that give some rows their new values.
pub open spec fn replacements(table_id: u64, rows: Seq<(u64, Seq<Datum>)>) -> Seq<Write> {
    rows.map_values(
        |r: (u64, Seq<Datum>)| Write::Update { table_id, row_id: r.0, data: row_bytes(r.1) },
    )
}

/// The writes that delete some rows.
pub open spec fn removals(table_id: u64, rows: Seq<(u64, Seq<Datum>)>) -> Seq<Write> {
    rows.map_values(|r: (u64, Seq<Datum>)| Write::Delete { table_id, row_id: r.0 })
}

/// Whether an engine has what another has committed. Its open transactions are
/// those of the other, but that `tx` may have ended.
pub open spec fn same_commits(o: Engine, e: Engine, tx: u64) -> bool {
    &&& o.clock == e.clock
    &&& o.tables == e.tables
    &&& (o.snapshots == e.snapshots || o.snapshots == e.snapshots.remove(tx))
}

/// Whether buffering a change of a table left what was committed: the clock stays,
/// and the tables do, but that the table itself may come to be, empty.
pub open spec fn commits_nothing(db: Db, o: Outcome, table: Seq<char>) -> bool {
    &&& o.engine.clock == db.engine.clock
    &&& match table_named(db.catalog, table) {
        Some(s) => {
            ||| o.engine.tables == with_table(db.engine.tables, s.table_id as u64)
            ||| o.engine.tables == db.engine.tables && o.result is Err
        },
        None => o.engine.tables == db.engine.tables && o.result is Err,
    }
    &&& snapshots_in_the_past(db.engine) ==> snapshots_in_the_past(o.engine)
    &&& db.engine.snapshots.dom().finite() ==> o.engine.snapshots.dom().finite()
}

proof fn lemma_insert_rows_keep(
    e: Engine,
    tx: u64,
    s: SchemaModel,
    q: InsertModel,
    k: int,
    i: int,
    done: Seq<(u64, Seq<Datum>)>,
    fl: FloatModel,
)
    requires
        buffer_of(e, tx) == insertions(s.table_id as u64, done),
    ensures
        ({
            let o = rows_inserted(e, tx, s, q, k, i, done, fl);
            &&& same_commits(o.engine, e, tx)
            &&& o.result matches Ok(rows) ==> buffer_of(o.engine, tx) == insertions(
                s.table_id as u64,
                rows,
            )
        }),
    decreases q.values.len() - i,
{
    if 0 <= i < q.values.len() {
        if let Ok(row) = ordered_row(q.columns, s, q.values[i], fl) {
            if 0 <= k < row.len() {
                if let Datum::Integer(n) = row[k] {
                    let table_id = s.table_id as u64;
                    let row_id = n as u64;
                    let op = Write::Insert { table_id, row_id, data: row_bytes(row) };
                    let w = wrote(e, tx, table_id, row_id, op);
                    if w.1 is None {
                        let more = done.push((row_id, row));
                        assert(insertions(table_id, more) =~= insertions(table_id, done).push(op));
                        assert(buffer_of(w.0, tx) == buffer_of(e, tx).push(op));
                        lemma_insert_rows_keep(w.0, tx, s, q, k, i + 1, more, fl);
                    }
                }
            }
        }
    }
}

proof fn lemma_update_rows_keep(
    e: Engine,
    tx: u64,
    table_id: u64,
    clause: Option<Expr>,
    assignments: Seq<(int, Assigned)>,
    rows: Seq<(u64, Seq<u8>)>,
    i: int,
    done: Seq<(u64, Seq<Datum>)>,
    fl: FloatModel,
)
    requires
        buffer_of(e, tx) == replacements(table_id, done),
    ensures
        ({
            let o = rows_updated(e, tx, table_id, clause, assignments, rows, i, done, fl);
            &&& same_commits(o.engine, e, tx)
            &&& o.result matches Ok(changed) ==> buffer_of(o.engine, tx) == replacements(
                table_id,
                changed,
            )
        }),
    decreases rows.len() - i,
{
    if 0 <= i < rows.len() {
        let row_id = rows[i].0;
        lemma_update_rows_keep(e, tx, table_id, clause, assignments, rows, i + 1, done, fl);
        if let Some(row) = bytes_row(rows[i].1) {
            let l = locked(e, tx, table_id, row_id);
            if let Ok(now) = row_assigned(assignments, 0, row, row, fl) {
                let op = Write::Update { table_id, row_id, data: row_bytes(now) };
                let w = wrote(l.0, tx, table_id, row_id, op);
                if l.1 is None && w.1 is None {
                    let more = done.push((row_id, now));
                    assert(replacements(table_id, more) =~= replacements(table_id, done).push(op));
                    assert(buffer_of(w.0, tx) == buffer_of(e, tx).push(op));
                    lemma_update_rows_keep(
                        w.0,
                        tx,
                        table_id,
                        clause,
                        assignments,
                        rows,
                        i + 1,
                        more,
                        fl,
                    );
                }
            }
        }
    }
}

proof fn lemma_delete_rows_keep(
    e: Engine,
    tx: u64,
    table_id: u64,
    clause: Option<Expr>,
    rows: Seq<(u64, Seq<u8>)>,
    i: int,
    done: Seq<(u64, Seq<Datum>)>,
    fl: FloatModel,
)
    requires
        buffer_of(e, tx) == removals(table_id, done),
    ensures
        ({
            let o = rows_deleted(e, tx, table_id, clause, rows, i, done, fl);
            &&& same_commits(o.engine, e, tx)
            &&& o.result matches Ok(gone) ==> buffer_of(o.engine, tx) == removals(table_id, gone)
        }),
    decreases rows.len() - i,
{
    if 0 <= i < rows.len() {
        let row_id = rows[i].0;
        lemma_delete_rows_keep(e, tx, table_id, clause, rows, i + 1, done, fl);
        if let Some(row) = bytes_row(rows[i].1) {
            let op = Write::Delete { table_id, row_id };
            let w = wrote(e, tx, table_id, row_id, op);
            if w.1 is None {
                let more = done.push((row_id, row));
                assert(removals(table_id, more) =~= removals(table_id, done).push(op));
                assert(buffer_of(w.0, tx) == buffer_of(e, tx).push(op));
                lemma_delete_rows_keep(w.0, tx, table_id, clause, rows, i + 1, more, fl);
            }
        }
    }
}

proof fn lemma_opened(e: Engine, table_id: u64, o: Engine)
    requires
        same_commits(o, opened(e, table_id), e.next_tx),
    ensures
        o.clock == e.clock,
        o.tables == with_table(e.tables, table_id),
        snapshots_in_the_past(e) ==> snapshots_in_the_past(o),
        e.snapshots.dom().finite() ==> o.snapshots.dom().finite(),
        buffer_of(opened(e, table_id), e.next_tx) == Seq::<Write>::empty(),
{
    assert(opened(e, table_id).snapshots.dom() =~= e.snapshots.dom().insert(e.next_tx));
    assert(opened(e, table_id).snapshots.remove(e.next_tx).dom() =~= e.snapshots.dom().insert(
        e.next_tx,
    ).remove(e.next_tx));
}

/// An insertion that is buffered commits nothing, and has buffered one write for
/// each of its rows.
pub proof fn insertions_are_buffered(db: Db, q: InsertModel, fl: FloatModel)
    ensures
        commits_nothing(db, insert_staged(db, q, fl), q.table),
        match (insert_staged(db, q, fl).result, table_named(db.catalog, q.table)) {
            (Ok(rows), Some(s)) => buffer_of(insert_staged(db, q, fl).engine, db.engine.next_tx)
                == insertions(s.table_id as u64, rows),
            _ => true,
        },
{
    if let Some(s) = table_named(db.catalog, q.table) {
        if let Some(k) = s.key_position() {
            let none = Seq::<(u64, Seq<Datum>)>::empty();
            let e = opened(db.engine, s.table_id as u64);
            assert(insertions(s.table_id as u64, none) =~= Seq::<Write>::empty());
            lemma_opened(db.engine, s.table_id as u64, e);
            lemma_insert_rows_keep(e, db.engine.next_tx, s, q, k, 0, none, fl);
            lemma_opened(db.engine, s.table_id as u64, insert_staged(db, q, fl).engine);
        }
    }
}

/// An update that is buffered commits nothing, and has buffered one write for each
/// row that it changes.
pub proof fn replacements_are_buffered(db: Db, q: UpdateModel, fl: FloatModel)
    ensures
        commits_nothing(db, update_staged(db, q, fl), q.table),
        match (update_staged(db, q, fl).result, table_named(db.catalog, q.table)) {
            (Ok(rows), Some(s)) => buffer_of(update_staged(db, q, fl).engine, db.engine.next_tx)
                == replacements(s.table_id as u64, rows),
            _ => true,
        },
{
    if let Some(s) = table_named(db.catalog, q.table) {
        if let Ok(assignments) = assignments_read(s, q.assignments, 0, Seq::empty(), fl) {
            let none = Seq::<(u64, Seq<Datum>)>::empty();
            let e = opened(db.engine, s.table_id as u64);
            assert(replacements(s.table_id as u64, none) =~= Seq::<Write>::empty());
            lemma_opened(db.engine, s.table_id as u64, e);
            if let Ok(clause) = clause_predicate(q.where_clause, s, fl) {
                lemma_update_rows_keep(
                    e,
                    db.engine.next_tx,
                    s.table_id as u64,
                    clause,
                    assignments,
                    write_candidates(Db { engine: e, ..db }, s, q.where_clause, fl),
                    0,
                    none,
                    fl,
                );
            }
            lemma_opened(db.engine, s.table_id as u64, update_staged(db, q, fl).engine);
        }
    }
}

/// A deletion that is buffered commits nothing, and has buffered one write for each
/// row that it deletes.
pub proof fn removals_are_buffered(db: Db, q: DeleteModel, fl: FloatModel)
    ensures
        commits_nothing(db, delete_staged(db, q, fl), q.table),
        match (delete_staged(db, q, fl).result, table_named(db.catalog, q.table)) {
            (Ok(rows), Some(s)) => buffer_of(delete_staged(db, q, fl).engine, db.engine.next_tx)
                == removals(s.table_id as u64, rows),
            _ => true,
        },
{
    if let Some(s) = table_named(db.catalog, q.table) {
        let none = Seq::<(u64, Seq<Datum>)>::empty();
        let e = opened(db.engine, s.table_id as u64);
        assert(removals(s.table_id as u64, none) =~= Seq::<Write>::empty());
        lemma_opened(db.engine, s.table_id as u64, e);
        if let Ok(clause) = clause_predicate(q.where_clause, s, fl) {
            lemma_delete_rows_keep(
                e,
                db.engine.next_tx,
                s.table_id as u64,
                clause,
                write_candidates(Db { engine: e, ..db }, s, q.where_clause, fl),
                0,
                none,
                fl,
            );
        }
        lemma_opened(db.engine, s.table_id as u64, delete_staged(db, q, fl).engine);
    }
}

} // verus!
