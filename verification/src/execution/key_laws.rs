//! A row's id is its primary key, and stays so.

use vstd::prelude::*;
use crate::execution::catalog::{
    distinct_ids, highest_id_bounds, id_from, id_place, key_place, registered,
    registering_keeps_ids_distinct, table_from, table_named, SchemaModel,
};
use crate::execution::changes::{
    assignments_read, clause_predicate, insertions_are_buffered, key_asked, locked, opened,
    ordered_row, removals_are_buffered, replacements_are_buffered, row_assigned, rows_inserted,
    rows_updated, write_candidates, wrote,
};
use crate::execution::definitions::new_schema;
use crate::execution::durability::{
    in_time, known_by, lemma_known_later, lemma_living_expired, lemma_living_pruned,
    lemma_living_pushed, lemma_named, lemma_one_with_id, living, the_newest_living_version_is_read,
};
use crate::execution::executor::Db;
use crate::execution::ids::in_order;
use crate::execution::index_laws::{lemma_seen_is_stored, lemma_stored_rows};
use crate::execution::learned_retention::Retention;
use crate::execution::mvcc_store::{
    all_written, chain_of, expired, stored_at, swept_store, target, with_table, written, TableModel,
    Version, Write, TS_INFINITY,
};
use crate::execution::oltp::{
    after_sweeps, buffer_of, committed, horizon, lemma_horizon, rows_at, Engine,
};
use crate::execution::operators::Datum;
use crate::execution::row_codec::assignment::{assigned_value, assignment_of, Assigned};
use crate::execution::row_codec::bytes::{bytes_row, row_bytes, rows_read_back};
use crate::execution::row_codec::predicate::Expr;
use crate::execution::row_codec::tokens::tokens_of;
use crate::execution::scan::{candidate_ids, first_mentions};
use crate::execution::statements::started;
use crate::execution::visibility::{
    after_change, all_known, changed, changed_table, changes_of, lemma_changes,
};
use crate::float::FloatModel;
use crate::sql::parser::{InsertModel, StatementModel};

verus! {

// ---- what all living versions have in common --------------------------------------------

/// What may be said of the bytes of a row: of its table, its id and the bytes.
pub type Saying = spec_fn(u64, u64, Seq<u8>) -> bool;

/// Whether something can be said of every version that lives.
pub open spec fn all_living(tables: Map<u64, TableModel>, p: Saying) -> bool {
    forall|t: u64, r: u64, j: int|
        #![trigger living(chain_of(tables[t], r))[j]]
        tables.dom().contains(t) && 0 <= j < living(chain_of(tables[t], r)).len() ==> p(
            t,
            r,
            living(chain_of(tables[t], r))[j],
        )
}

/// The bytes that a write leaves can have it said of them.
spec fn write_has(w: Write, p: Saying) -> bool {
    match w {
        Write::Insert { table_id, row_id, data } => p(table_id, row_id, data),
        Write::Update { table_id, row_id, data } => p(table_id, row_id, data),
        Write::Delete { .. } => true,
    }
}

proof fn lemma_written_has(
    a: Map<u64, TableModel>,
    w: Write,
    ts: u64,
    p: Saying,
    fl: FloatModel,
)
    requires
        all_known(a, ts),
        ts < TS_INFINITY,
        all_living(a, p),
        write_has(w, p),
    ensures
        all_known(written(a, w, ts, fl), ts),
        all_living(written(a, w, ts, fl), p),
{
    let (id, row) = target(w);
    let x = written(a, w, ts, fl);
    if a.dom().contains(id) {
        let chain = chain_of(a[id], row);
        assert(known_by(chain, ts));
        let data = match w {
            Write::Insert { data, .. } => data,
            Write::Update { data, .. } => data,
            Write::Delete { .. } => Seq::empty(),
        };
        lemma_living_pushed(chain, ts, data);
        lemma_living_expired(chain, ts);
        lemma_living_pushed(expired(chain, ts), ts, data);
        assert forall|t: u64, r: u64|
            #![trigger chain_of(x[t], r)]
            x.dom().contains(t) implies known_by(chain_of(x[t], r), ts) by {
            assert(a.dom().contains(t));
            if t != id || r != row {
                assert(chain_of(x[t], r) == chain_of(a[t], r));
            }
        }
        assert forall|t: u64, r: u64, j: int|
            #![trigger living(chain_of(x[t], r))[j]]
            x.dom().contains(t) && 0 <= j < living(chain_of(x[t], r)).len() implies p(
            t,
            r,
            living(chain_of(x[t], r))[j],
        ) by {
            let was = living(chain_of(a[t], r));
            let now = living(chain_of(x[t], r));
            if t != id || r != row {
                assert(chain_of(x[t], r) == chain_of(a[t], r));
                assert(p(t, r, was[j]));
            } else {
                match w {
                    Write::Insert { .. } => {
                        assert(now == seq![data] + was);
                        if j > 0 {
                            assert(now[j] == was[j - 1]);
                        }
                    },
                    Write::Update { .. } => {
                        let left = living(expired(chain, ts));
                        assert(now == seq![data] + left);
                        assert(j == 0);
                    },
                    Write::Delete { .. } => {
                        if a[id].rows.dom().contains(row) {
                            assert(now == living(expired(chain, ts)));
                        } else {
                            assert(now[j] == was[j]);
                        }
                    },
                }
            }
        }
    }
}

proof fn lemma_all_written_has(
    a: Map<u64, TableModel>,
    ws: Seq<Write>,
    n: int,
    ts: u64,
    p: Saying,
    fl: FloatModel,
)
    requires
        all_known(a, ts),
        ts < TS_INFINITY,
        all_living(a, p),
        n <= ws.len(),
        forall|i: int| 0 <= i < ws.len() ==> write_has(#[trigger] ws[i], p),
    ensures
        all_known(all_written(a, ws, n, ts, fl), ts),
        all_living(all_written(a, ws, n, ts, fl), p),
    decreases n,
{
    if n > 0 {
        lemma_all_written_has(a, ws, n - 1, ts, p, fl);
        lemma_written_has(all_written(a, ws, n - 1, ts, fl), ws[n - 1], ts, p, fl);
    }
}

proof fn lemma_swept_has(
    a: Map<u64, TableModel>,
    id: u64,
    row: u64,
    h: u64,
    ts: u64,
    p: Saying,
)
    requires
        all_known(a, ts),
        all_living(a, p),
        h < TS_INFINITY,
    ensures
        all_known(swept_store(a, id, row, h), ts),
        all_living(swept_store(a, id, row, h), p),
{
    let x = swept_store(a, id, row, h);
    if a.dom().contains(id) {
        assert(known_by(chain_of(a[id], row), ts));
        lemma_living_pruned(chain_of(a[id], row), h, ts);
        assert forall|t: u64, r: u64|
            #![trigger chain_of(x[t], r)]
            x.dom().contains(t) implies known_by(chain_of(x[t], r), ts) && living(
            chain_of(x[t], r),
        ) == living(chain_of(a[t], r)) by {
            assert(a.dom().contains(t));
            if t != id || r != row {
                assert(chain_of(x[t], r) == chain_of(a[t], r));
            }
        }
        assert forall|t: u64, r: u64, j: int|
            #![trigger living(chain_of(x[t], r))[j]]
            x.dom().contains(t) && 0 <= j < living(chain_of(x[t], r)).len() implies p(
            t,
            r,
            living(chain_of(x[t], r))[j],
        ) by {
            assert(p(t, r, living(chain_of(a[t], r))[j]));
        }
    }
}

proof fn lemma_sweeps_have(
    a: Map<u64, TableModel>,
    q: Retention,
    ws: Seq<Write>,
    n: int,
    h: u64,
    ts: u64,
    p: Saying,
    fl: FloatModel,
)
    requires
        all_known(a, ts),
        all_living(a, p),
        h < TS_INFINITY,
    ensures
        all_known(after_sweeps(a, q, ws, n, h, fl).0, ts),
        all_living(after_sweeps(a, q, ws, n, h, fl).0, p),
    decreases n,
{
    if n > 0 {
        lemma_sweeps_have(a, q, ws, n - 1, h, ts, p, fl);
        let (id, row) = target(ws[n - 1]);
        lemma_swept_has(after_sweeps(a, q, ws, n - 1, h, fl).0, id, row, h, ts, p);
    }
}

proof fn lemma_commit_has(e: Engine, tx: u64, p: Saying, fl: FloatModel)
    requires
        in_time(e),
        e.clock < TS_INFINITY - 1,
        all_known(e.tables, e.clock),
        all_living(e.tables, p),
        forall|i: int|
            0 <= i < buffer_of(e, tx).len() ==> write_has(#[trigger] buffer_of(e, tx)[i], p),
    ensures
        all_living(committed(e, tx, fl).tables, p),
        all_known(committed(e, tx, fl).tables, committed(e, tx, fl).clock),
{
    let ws = buffer_of(e, tx);
    let ts = (e.clock + 1) as u64;
    let snapshots = e.snapshots.remove(tx);
    assert(snapshots.dom() =~= e.snapshots.dom().remove(tx));
    lemma_horizon(snapshots, ts, tx);
    assert(all_known(e.tables, ts)) by {
        assert forall|t: u64, r: u64|
            #![trigger chain_of(e.tables[t], r)]
            e.tables.dom().contains(t) implies known_by(chain_of(e.tables[t], r), ts) by {
            lemma_known_later(chain_of(e.tables[t], r), e.clock, ts);
        }
    }
    lemma_all_written_has(e.tables, ws, ws.len() as int, ts, p, fl);
    lemma_sweeps_have(
        all_written(e.tables, ws, ws.len() as int, ts, fl),
        e.retention,
        ws,
        ws.len() as int,
        horizon(snapshots, ts),
        ts,
        p,
        fl,
    );
}

// ---- keys -------------------------------------------------------------------------------

/// Whether a row has its id as its primary key.
pub open spec fn is_keyed(s: SchemaModel, row_id: u64, row: Seq<Datum>) -> bool {
    match s.key_position() {
        Some(k) => k < row.len() && match row[k] {
            Datum::Integer(n) => n as u64 == row_id,
            _ => false,
        },
        None => true,
    }
}

/// Whether a catalog has a table with an id.
pub open spec fn has_id(catalog: Seq<SchemaModel>, id: u64) -> bool {
    exists|i: int| 0 <= i < catalog.len() && (#[trigger] catalog[i]).table_id as u64 == id
}

/// Whether a row is of a table of the catalog, and its bytes hold its id as its
/// primary key.
pub open spec fn keyed_bytes(catalog: Seq<SchemaModel>) -> Saying {
    |t: u64, r: u64, b: Seq<u8>|
        has_id(catalog, t) && match bytes_row(b) {
            Some(row) => forall|i: int|
                0 <= i < catalog.len() && (#[trigger] catalog[i]).table_id as u64 == t ==> is_keyed(
                    catalog[i],
                    r,
                    row,
                ),
            None => true,
        }
}

/// Every row of a database has its id as its primary key.
pub open spec fn rows_keyed(db: Db) -> bool {
    distinct_ids(db.catalog) && all_living(db.engine.tables, keyed_bytes(db.catalog))
}

/// Every one of some rows is keyed.
spec fn all_keyed(s: SchemaModel, rows: Seq<(u64, Seq<Datum>)>) -> bool {
    forall|k: int|
        0 <= k < rows.len() ==> is_keyed(s, (#[trigger] rows[k]).0, rows[k].1)
}

proof fn lemma_inserted_keyed(
    e: Engine,
    tx: u64,
    s: SchemaModel,
    q: InsertModel,
    k: int,
    i: int,
    done: Seq<(u64, Seq<Datum>)>,
    fl: FloatModel,
)
    requires
        s.key_position() == Some(k),
        all_keyed(s, done),
    ensures
        rows_inserted(e, tx, s, q, k, i, done, fl).result matches Ok(rows) ==> all_keyed(s, rows),
    decreases q.values.len() - i,
{
    if 0 <= i < q.values.len() {
        if let Ok(row) = ordered_row(q.columns, s, q.values[i], fl) {
            if 0 <= k < row.len() {
                if let Datum::Integer(n) = row[k] {
                    let table_id = s.table_id as u64;
                    let row_id = n as u64;
                    let w = wrote(
                        e,
                        tx,
                        table_id,
                        row_id,
                        Write::Insert { table_id, row_id, data: row_bytes(row) },
                    );
                    let more = done.push((row_id, row));
                    assert(all_keyed(s, more)) by {
                        assert forall|x: int| 0 <= x < more.len() implies is_keyed(
                            s,
                            (#[trigger] more[x]).0,
                            more[x].1,
                        ) by {
                            if x < done.len() {
                                assert(more[x] == done[x]);
                            }
                        }
                    }
                    lemma_inserted_keyed(w.0, tx, s, q, k, i + 1, more, fl);
                }
            }
        }
    }
}

/// Every assignment is to a column that is not the key.
spec fn leave_the_key(s: SchemaModel, assignments: Seq<(int, Assigned)>) -> bool {
    forall|i: int| 0 <= i < assignments.len() ==> s.key_position() != Some((#[trigger] assignments[i]).0)
}

proof fn lemma_assignments_leave_the_key(
    s: SchemaModel,
    pairs: Seq<(Seq<char>, Seq<char>)>,
    i: int,
    done: Seq<(int, Assigned)>,
    fl: FloatModel,
)
    requires
        leave_the_key(s, done),
    ensures
        assignments_read(s, pairs, i, done, fl) matches Ok(a) ==> leave_the_key(s, a),
    decreases pairs.len() - i,
{
    if 0 <= i < pairs.len() {
        if let Some(c) = s.position(pairs[i].0) {
            if s.key_position() != Some(c) {
                if let Some(a) = assignment_of(pairs[i].1, s, s.columns[c].data_type, fl) {
                    let more = done.push((c, a));
                    assert forall|x: int| 0 <= x < more.len() implies s.key_position() != Some(
                        (#[trigger] more[x]).0,
                    ) by {
                        if x < done.len() {
                            assert(more[x] == done[x]);
                        }
                    }
                    lemma_assignments_leave_the_key(s, pairs, i + 1, more, fl);
                }
            }
        }
    }
}

proof fn lemma_assigned_keeps_the_key(
    s: SchemaModel,
    assignments: Seq<(int, Assigned)>,
    i: int,
    was: Seq<Datum>,
    row: Seq<Datum>,
    k: int,
    fl: FloatModel,
)
    requires
        leave_the_key(s, assignments),
        s.key_position() == Some(k),
        0 <= i,
        0 <= k < row.len(),
    ensures
        row_assigned(assignments, i, was, row, fl) matches Ok(now) ==> now.len() == row.len()
            && now[k] == row[k],
    decreases assignments.len() - i,
{
    if i < assignments.len() {
        let (c, a) = assignments[i];
        assert(c != k);
        if 0 <= c < row.len() {
            lemma_assigned_keeps_the_key(
                s,
                assignments,
                i + 1,
                was,
                row.update(c, assigned_value(a, was, fl)),
                k,
                fl,
            );
        }
    }
}

/// Every one of some stored rows that holds a row holds a keyed one.
spec fn stored_keyed(s: SchemaModel, rows: Seq<(u64, Seq<u8>)>) -> bool {
    forall|k: int|
        0 <= k < rows.len() ==> match bytes_row((#[trigger] rows[k]).1) {
            Some(row) => is_keyed(s, rows[k].0, row),
            None => true,
        }
}

proof fn lemma_updated_keyed(
    e: Engine,
    tx: u64,
    s: SchemaModel,
    clause: Option<Expr>,
    assignments: Seq<(int, Assigned)>,
    rows: Seq<(u64, Seq<u8>)>,
    i: int,
    done: Seq<(u64, Seq<Datum>)>,
    fl: FloatModel,
)
    requires
        leave_the_key(s, assignments),
        stored_keyed(s, rows),
        all_keyed(s, done),
        0 <= i,
    ensures
        rows_updated(
            e,
            tx,
            s.table_id as u64,
            clause,
            assignments,
            rows,
            i,
            done,
            fl,
        ).result matches Ok(changed) ==> all_keyed(s, changed),
    decreases rows.len() - i,
{
    let table_id = s.table_id as u64;
    if i < rows.len() {
        let row_id = rows[i].0;
        lemma_updated_keyed(e, tx, s, clause, assignments, rows, i + 1, done, fl);
        if let Some(row) = bytes_row(rows[i].1) {
            let l = locked(e, tx, table_id, row_id);
            if let Ok(now) = row_assigned(assignments, 0, row, row, fl) {
                let w = wrote(
                    l.0,
                    tx,
                    table_id,
                    row_id,
                    Write::Update { table_id, row_id, data: row_bytes(now) },
                );
                assert(is_keyed(s, rows[i].0, row));
                if let Some(k) = s.key_position() {
                    key_place(s, 0);
                    lemma_assigned_keeps_the_key(s, assignments, 0, row, row, k, fl);
                }
                let more = done.push((row_id, now));
                assert(all_keyed(s, more)) by {
                    assert forall|x: int| 0 <= x < more.len() implies is_keyed(
                        s,
                        (#[trigger] more[x]).0,
                        more[x].1,
                    ) by {
                        if x < done.len() {
                            assert(more[x] == done[x]);
                        }
                    }
                }
                lemma_updated_keyed(w.0, tx, s, clause, assignments, rows, i + 1, more, fl);
            }
        }
    }
}

pub(crate) proof fn lemma_current_is_keyed(db: Db, s: SchemaModel, p: (u64, Seq<u8>))
    requires
        rows_keyed(db),
        db.catalog.contains(s),
        all_known(db.engine.tables, db.engine.clock),
        db.engine.clock < TS_INFINITY,
        stored_at(db.engine.tables, s.table_id as u64, p.0, db.engine.clock) == Some(p.1),
    ensures
        bytes_row(p.1) matches Some(row) ==> is_keyed(s, p.0, row),
{
    let id = s.table_id as u64;
    let chain = chain_of(db.engine.tables[id], p.0);
    the_newest_living_version_is_read(chain, db.engine.clock);
    assert(living(chain)[0] == p.1);
    let said = keyed_bytes(db.catalog);
    assert(said(id, p.0, living(chain)[0]));
}

proof fn lemma_candidates_keyed(
    db: Db,
    s: SchemaModel,
    clause: Option<Seq<char>>,
    fl: FloatModel,
)
    requires
        rows_keyed(db),
        db.catalog.contains(s),
        all_known(db.engine.tables, db.engine.clock),
        db.engine.clock < TS_INFINITY,
    ensures
        stored_keyed(s, write_candidates(db, s, clause, fl)),
{
    let id = s.table_id as u64;
    let rows = write_candidates(db, s, clause, fl);
    let all = rows_at(db.engine.tables, id, db.engine.clock);
    assert forall|k: int| 0 <= k < rows.len() implies match bytes_row((#[trigger] rows[k]).1) {
        Some(row) => is_keyed(s, rows[k].0, row),
        None => true,
    } by {
        let p = rows[k];
        assert(rows.contains(p));
        if rows == all {
            let t = db.engine.tables[id];
            lemma_seen_is_stored(t, in_order(t.rows.dom()), 0, db.engine.clock, p);
        } else {
            let t = tokens_of(clause->0);
            if key_asked(s, t, fl) is None {
                let ids = candidate_ids(db, s, t[0], t[1], t[2], fl)->0;
                let once = first_mentions(ids, ids.len() as int);
                lemma_stored_rows(db, id, once, 0, p);
            }
        }
        lemma_current_is_keyed(db, s, p);
    }
}

proof fn lemma_changes_are_keyed(db: Db, s: StatementModel, fl: FloatModel)
    requires
        rows_keyed(db),
        all_known(db.engine.tables, db.engine.clock),
        db.engine.clock < TS_INFINITY,
        changed(db, s, fl) is Some,
    ensures
        !(s is Delete) ==> all_keyed((changed(db, s, fl)->0).0, (changed(db, s, fl)->0).1),
{
    let (schema, rows) = changed(db, s, fl)->0;
    lemma_changes(db, s, fl);
    lemma_named(db.catalog, changed_table(s), 0);
    assert(db.catalog.contains(schema));
    let id = schema.table_id as u64;
    let e = opened(db.engine, id);
    let none = Seq::<(u64, Seq<Datum>)>::empty();
    assert(all_keyed(schema, none));
    match s {
        StatementModel::Insert(q) => {
            if let Some(k) = schema.key_position() {
                lemma_inserted_keyed(e, db.engine.next_tx, schema, q, k, 0, none, fl);
            }
        },
        StatementModel::Update(q) => {
            let now = Db { engine: e, ..db };
            if let Ok(a) = assignments_read(schema, q.assignments, 0, Seq::empty(), fl) {
                lemma_assignments_leave_the_key(schema, q.assignments, 0, Seq::empty(), fl);
                lemma_opened_known(db, id);
                lemma_candidates_keyed(now, schema, q.where_clause, fl);
                if let Ok(clause) = clause_predicate(q.where_clause, schema, fl) {
                    lemma_updated_keyed(
                        e,
                        db.engine.next_tx,
                        schema,
                        clause,
                        a,
                        write_candidates(now, schema, q.where_clause, fl),
                        0,
                        none,
                        fl,
                    );
                }
            }
        },
        _ => {},
    }
}

proof fn lemma_opened_known(db: Db, id: u64)
    ensures
        all_known(db.engine.tables, db.engine.clock) ==> all_known(
            with_table(db.engine.tables, id),
            db.engine.clock,
        ),
        forall|p: Saying| #[trigger]
            all_living(db.engine.tables, p) ==> all_living(with_table(db.engine.tables, id), p),
{
    let a = db.engine.tables;
    let x = with_table(a, id);
    assert forall|t: u64, r: u64|
        #![trigger chain_of(x[t], r)]
        x.dom().contains(t) implies (if a.dom().contains(t) {
        chain_of(x[t], r) == chain_of(a[t], r)
    } else {
        chain_of(x[t], r) == Seq::<Version>::empty()
    }) by {}
    if all_known(a, db.engine.clock) {
        assert forall|t: u64, r: u64|
            #![trigger chain_of(x[t], r)]
            x.dom().contains(t) implies known_by(chain_of(x[t], r), db.engine.clock) by {
            if a.dom().contains(t) {
                assert(known_by(chain_of(a[t], r), db.engine.clock));
            }
        }
    }
    assert forall|p: Saying| #[trigger] all_living(a, p) implies all_living(x, p) by {
        assert forall|t: u64, r: u64, j: int|
            #![trigger living(chain_of(x[t], r))[j]]
            x.dom().contains(t) && 0 <= j < living(chain_of(x[t], r)).len() implies p(
            t,
            r,
            living(chain_of(x[t], r))[j],
        ) by {
            if a.dom().contains(t) {
                assert(p(t, r, living(chain_of(a[t], r))[j]));
            }
        }
    }
}

proof fn lemma_keyed_writes(db: Db, s: StatementModel, fl: FloatModel)
    requires
        rows_keyed(db),
        all_known(db.engine.tables, db.engine.clock),
        db.engine.clock < TS_INFINITY,
        match changed(db, s, fl) {
            Some((_, rows)) => forall|k: int|
                0 <= k < rows.len() ==> row_bytes((#[trigger] rows[k]).1).len() <= u64::MAX,
            None => false,
        },
    ensures
        ({
            let ws = changes_of(db, s, fl);
            forall|i: int|
                0 <= i < ws.len() ==> write_has(#[trigger] ws[i], keyed_bytes(db.catalog))
        }),
{
    let (schema, rows) = changed(db, s, fl)->0;
    let ws = changes_of(db, s, fl);
    let id = schema.table_id as u64;
    let said = keyed_bytes(db.catalog);
    lemma_changes(db, s, fl);
    lemma_changes_are_keyed(db, s, fl);
    lemma_named(db.catalog, changed_table(s), 0);
    let at = table_from(db.catalog, changed_table(s), 0)->0;
    assert(db.catalog[at] == schema);
    lemma_one_with_id(db.catalog, at);
    assert forall|i: int| 0 <= i < ws.len() implies write_has(#[trigger] ws[i], said) by {
        let row = rows[i].1;
        rows_read_back(row);
        if !(s is Delete) {
            assert(is_keyed(schema, rows[i].0, row));
            assert(has_id(db.catalog, id));
            assert forall|x: int|
                0 <= x < db.catalog.len() && (#[trigger] db.catalog[x]).table_id as u64
                    == id implies is_keyed(db.catalog[x], rows[i].0, row) by {
                lemma_one_with_id(db.catalog, x);
            }
            assert(said(id, rows[i].0, row_bytes(row)));
        }
    }
}

/// A row's id stays its primary key: where every row of a database has its id as its
/// primary key, it has once a statement has been run. What is stored by then has begun
/// by then, and the clock has moved by one at most.
pub proof fn rows_stay_keyed(db: Db, s: StatementModel, fl: FloatModel)
    requires
        rows_keyed(db),
        in_time(db.engine),
        db.engine.clock < TS_INFINITY - 1,
        all_known(db.engine.tables, db.engine.clock),
        match changed(db, s, fl) {
            Some((_, rows)) => forall|k: int|
                0 <= k < rows.len() ==> row_bytes((#[trigger] rows[k]).1).len() <= u64::MAX,
            None => true,
        },
    ensures
        rows_keyed(after_change(db, s, fl)),
        all_known(after_change(db, s, fl).engine.tables, after_change(db, s, fl).engine.clock),
        db.engine.clock <= after_change(db, s, fl).engine.clock <= db.engine.clock + 1,
{
    let said = keyed_bytes(db.catalog);
    let d = after_change(db, s, fl);
    if changed(db, s, fl) is Some {
        let schema = (changed(db, s, fl)->0).0;
        let e = started(db, s, fl).db.engine;
        lemma_changes(db, s, fl);
        lemma_keyed_writes(db, s, fl);
        lemma_opened_known(db, schema.table_id as u64);
        assert(all_living(db.engine.tables, said));
        lemma_commit_has(e, db.engine.next_tx, said, fl);
    } else {
        assert(all_living(db.engine.tables, said));
        match s {
            StatementModel::Insert(q) => {
                insertions_are_buffered(db, q, fl);
                lemma_stays_keyed_where_refused(db, q.table, d);
            },
            StatementModel::Update(q) => {
                replacements_are_buffered(db, q, fl);
                lemma_stays_keyed_where_refused(db, q.table, d);
            },
            StatementModel::Delete(q) => {
                removals_are_buffered(db, q, fl);
                lemma_stays_keyed_where_refused(db, q.table, d);
            },
            StatementModel::CreateTable(q) => {
                if let Ok(schema) = new_schema(db.catalog, q) {
                    highest_id_bounds(db.catalog, db.catalog.len() as int);
                    id_place(db.catalog, schema.table_id, 0);
                    lemma_new_table_is_keyed(db, schema, d);
                }
            },
            _ => {},
        }
    }
}

proof fn lemma_stays_keyed_where_refused(db: Db, table: Seq<char>, d: Db)
    requires
        rows_keyed(db),
        all_known(db.engine.tables, db.engine.clock),
        d.engine.clock == db.engine.clock,
        d.catalog == db.catalog,
        d.engine.tables == db.engine.tables || match table_named(db.catalog, table) {
            Some(s) => d.engine.tables == with_table(db.engine.tables, s.table_id as u64),
            None => false,
        },
    ensures
        rows_keyed(d),
        all_known(d.engine.tables, d.engine.clock),
{
    assert(all_living(db.engine.tables, keyed_bytes(db.catalog)));
    if let Some(s) = table_named(db.catalog, table) {
        lemma_opened_known(db, s.table_id as u64);
    }
}

proof fn lemma_new_table_is_keyed(db: Db, schema: SchemaModel, d: Db)
    requires
        rows_keyed(db),
        id_from(db.catalog, schema.table_id, 0) is None,
        d.catalog == registered(db.catalog, schema),
        d.engine.tables == with_table(db.engine.tables, schema.table_id as u64),
        all_known(db.engine.tables, db.engine.clock),
        d.engine.clock == db.engine.clock,
    ensures
        rows_keyed(d),
        all_known(d.engine.tables, d.engine.clock),
{
    let said = keyed_bytes(db.catalog);
    let now = keyed_bytes(d.catalog);
    let x = d.engine.tables;
    registering_keeps_ids_distinct(db.catalog, schema);
    id_place(db.catalog, schema.table_id, 0);
    assert(d.catalog == db.catalog.push(schema));
    assert(all_living(db.engine.tables, said));
    lemma_opened_known(db, schema.table_id as u64);
    assert(all_living(x, said));
    assert forall|t: u64, r: u64, j: int|
        #![trigger living(chain_of(x[t], r))[j]]
        x.dom().contains(t) && 0 <= j < living(chain_of(x[t], r)).len() implies now(
        t,
        r,
        living(chain_of(x[t], r))[j],
    ) by {
        let b = living(chain_of(x[t], r))[j];
        assert(said(t, r, b));
        let i = choose|i: int|
            0 <= i < db.catalog.len() && (#[trigger] db.catalog[i]).table_id as u64 == t;
        assert(d.catalog[i] == db.catalog[i]);
        assert(has_id(d.catalog, t));
        if let Some(row) = bytes_row(b) {
            assert forall|k: int|
                0 <= k < d.catalog.len() && (#[trigger] d.catalog[k]).table_id as u64
                    == t implies is_keyed(d.catalog[k], r, row) by {
                if k < db.catalog.len() {
                    assert(d.catalog[k] == db.catalog[k]);
                } else {
                    assert(db.catalog[i].table_id != schema.table_id);
                }
            }
        }
    }
}

} // verus!
