//! What is read of rows that were changed.

use vstd::prelude::*;
use crate::execution::catalog::{table_named, SchemaModel};
use crate::execution::changes::{
    clause_predicate, delete_staged, insertions, insertions_are_buffered, opened, removals,
    removals_are_buffered, replacements, replacements_are_buffered, rows_deleted, write_candidates,
    wrote,
};
use crate::execution::definitions::new_schema;
use crate::execution::durability::{
    in_time, known_by, lemma_agree_after_sweeps, lemma_agree_all_written, lemma_agree_later,
    lemma_agree_with_table, lemma_known_later, lemma_living_expired, living, stores_agree,
    tables_agree, the_newest_living_version_is_read,
};
use crate::execution::executor::Db;
use crate::execution::ids::{ascending, in_order, in_order_lists};
use crate::execution::mvcc_store::{
    all_written, chain_of, lemma_rest_stays, lemma_tables_stay, other_rows_stay, read_at, row_at,
    seen_from, stored_at, target, the_last_write_is_read, with_table, TableModel, Version, Write,
    TS_INFINITY,
};
use crate::execution::oltp::{
    aborted, buffer_of, committed, horizon, left_by, lemma_horizon, lemma_sweeps_are_safe, rows_at,
    Engine,
};
use crate::execution::operators::Datum;
use crate::execution::row_codec::bytes::{bytes_row, row_bytes, rows_read_back};
use crate::execution::row_codec::predicate::Expr;
use crate::execution::row_codec::tokens::tokens_of;
use crate::execution::scan::{candidate_ids, decoded_rows, first_mentions, stored_rows, table_scan};
use crate::execution::statements::{cancelled, settled, started, PendingModel, StepModel};
use crate::float::FloatModel;
use crate::sql::parser::{DeleteModel, StatementModel};

verus! {

// ---- what a scan holds ------------------------------------------------------------------

proof fn lemma_seen_holds(t: TableModel, ids: Seq<u64>, i: int, snap: u64, k: int)
    requires
        0 <= i <= k < ids.len(),
    ensures
        row_at(t, ids[k], snap) matches Some(b) ==> seen_from(
            t,
            ids,
            i,
            snap,
        ).contains((ids[k], b)),
    decreases k - i,
{
    let rest = seen_from(t, ids, i + 1, snap);
    let all = seen_from(t, ids, i, snap);
    if i < k {
        lemma_seen_holds(t, ids, i + 1, snap, k);
    }
    if let Some(b) = row_at(t, ids[k], snap) {
        if i == k {
            assert(all[0] == (ids[k], b));
        } else {
            let j = choose|j: int| 0 <= j < rest.len() && rest[j] == (ids[k], b);
            if all.len() == rest.len() {
                assert(all[j] == (ids[k], b));
            } else {
                assert(all[j + 1] == (ids[k], b));
            }
        }
    }
}

/// A scan holds each row that a snapshot reads.
pub proof fn a_scan_holds_every_row(
    tables: Map<u64, TableModel>,
    table_id: u64,
    row_id: u64,
    snap: u64,
)
    ensures
        stored_at(tables, table_id, row_id, snap) matches Some(b) ==> rows_at(
            tables,
            table_id,
            snap,
        ).contains((row_id, b)),
{
    if stored_at(tables, table_id, row_id, snap) is Some {
        let t = tables[table_id];
        let ids = in_order(t.rows.dom());
        in_order_lists(t.rows.dom());
        assert(t.rows.dom().contains(row_id));
        assert(ids.contains(row_id));
        let k = choose|k: int| 0 <= k < ids.len() && ids[k] == row_id;
        lemma_seen_holds(t, ids, 0, snap, k);
    }
}

proof fn lemma_decoded_holds(stored: Seq<(u64, Seq<u8>)>, i: int, k: int)
    requires
        0 <= i <= k < stored.len(),
    ensures
        bytes_row(stored[k].1) matches Some(row) ==> decoded_rows(stored, i).contains(row),
    decreases k - i,
{
    if let Some(row) = bytes_row(stored[k].1) {
        let rest = decoded_rows(stored, i + 1);
        let all = decoded_rows(stored, i);
        if i == k {
            assert(all[0] == row);
        } else {
            lemma_decoded_holds(stored, i + 1, k);
            let j = choose|j: int| 0 <= j < rest.len() && rest[j] == row;
            if all.len() == rest.len() {
                assert(all[j] == row);
            } else {
                assert(all[j + 1] == row);
            }
        }
    }
}

// ---- what a commit leaves ---------------------------------------------------------------

/// What a statement has changed, and is to be committed: its schema and its rows.
pub open spec fn changed(db: Db, s: StatementModel, fl: FloatModel) -> Option<
    (SchemaModel, Seq<(u64, Seq<Datum>)>),
> {
    match started(db, s, fl).result {
        Ok(StepModel::Log(_, PendingModel::Rows { schema, rows, .. })) => Some((schema, rows)),
        _ => None,
    }
}

/// The database once the change of a statement is made.
pub open spec fn after_change(db: Db, s: StatementModel, fl: FloatModel) -> Db {
    let b = started(db, s, fl);
    match b.result {
        Ok(StepModel::Log(_, p)) => settled(b.db, p, fl).db,
        _ => b.db,
    }
}

proof fn lemma_last_write_stays(e: Engine, tx: u64, k: int, fl: FloatModel)
    requires
        in_time(e),
        e.clock < TS_INFINITY - 1,
        0 <= k < buffer_of(e, tx).len(),
        !(buffer_of(e, tx)[k] is Delete),
        e.tables.dom().contains(target(buffer_of(e, tx)[k]).0),
        forall|i: int|
            k < i < buffer_of(e, tx).len() ==> target(
                #[trigger] buffer_of(e, tx)[i],
            ) != target(buffer_of(e, tx)[k]),
    ensures
        ({
            let w = buffer_of(e, tx)[k];
            let after = committed(e, tx, fl);
            stored_at(
                after.tables,
                target(w).0,
                target(w).1,
                after.clock,
            ) == left_by(w)
        }),
{
    let ws = buffer_of(e, tx);
    let ts = (e.clock + 1) as u64;
    let snapshots = e.snapshots.remove(tx);
    let at = target(ws[k]);
    assert(snapshots.dom() =~= e.snapshots.dom().remove(tx));
    lemma_horizon(snapshots, ts, tx);
    the_last_write_is_read(e.tables, ws, k, ts, fl, ts);
    lemma_sweeps_are_safe(
        all_written(e.tables, ws, ws.len() as int, ts, fl),
        e.retention,
        ws,
        ws.len() as int,
        horizon(snapshots, ts),
        fl,
        at.0,
        at.1,
        ts,
    );
}

/// The table that a statement changes.
pub open spec fn changed_table(s: StatementModel) -> Seq<char> {
    match s {
        StatementModel::Insert(q) => q.table,
        StatementModel::Update(q) => q.table,
        StatementModel::Delete(q) => q.table,
        _ => Seq::empty(),
    }
}

/// The writes that a statement buffers.
pub open spec fn changes_of(db: Db, s: StatementModel, fl: FloatModel) -> Seq<Write> {
    buffer_of(started(db, s, fl).db.engine, db.engine.next_tx)
}

pub(crate) proof fn lemma_changes(db: Db, s: StatementModel, fl: FloatModel)
    requires
        changed(db, s, fl) is Some,
    ensures
        ({
            let (schema, rows) = changed(db, s, fl)->0;
            let id = schema.table_id as u64;
            let ws = changes_of(db, s, fl);
            &&& table_named(db.catalog, changed_table(s)) == Some(schema)
            &&& match s {
                StatementModel::Insert(_) => ws == insertions(id, rows),
                StatementModel::Update(_) => ws == replacements(id, rows),
                StatementModel::Delete(_) => ws == removals(id, rows),
                _ => false,
            }
            &&& started(db, s, fl).db.engine.clock == db.engine.clock
            &&& started(db, s, fl).db.engine.tables == with_table(db.engine.tables, id)
            &&& in_time(db.engine) ==> in_time(started(db, s, fl).db.engine)
            &&& after_change(db, s, fl).engine == committed(
                started(db, s, fl).db.engine,
                db.engine.next_tx,
                fl,
            )
            &&& after_change(db, s, fl).catalog == db.catalog
        }),
{
    match s {
        StatementModel::Insert(q) => {
            insertions_are_buffered(db, q, fl);
        },
        StatementModel::Update(q) => {
            replacements_are_buffered(db, q, fl);
        },
        StatementModel::Delete(q) => {
            removals_are_buffered(db, q, fl);
        },
        _ => {},
    }
}

/// A row that a statement inserts or updates is read once the change is made: by
/// its id, and in a scan of its table. Where one statement inserts a row twice, the
/// last one counts.
pub proof fn a_changed_row_is_read(db: Db, s: StatementModel, fl: FloatModel, k: int)
    requires
        in_time(db.engine),
        db.engine.clock < TS_INFINITY - 1,
        s is Insert || s is Update,
        match changed(db, s, fl) {
            Some((_, rows)) => {
                &&& 0 <= k < rows.len()
                &&& forall|j: int| k < j < rows.len() ==> (#[trigger] rows[j]).0 != rows[k].0
                &&& row_bytes(rows[k].1).len() <= u64::MAX
            },
            None => false,
        },
    ensures
        ({
            let (schema, rows) = changed(db, s, fl)->0;
            let d = after_change(db, s, fl);
            &&& stored_at(d.engine.tables, schema.table_id as u64, rows[k].0, d.engine.clock)
                == Some(row_bytes(rows[k].1))
            &&& table_scan(d, changed_table(s)) matches Ok(t) && t.rows.contains(rows[k].1)
        }),
{
    let (schema, rows) = changed(db, s, fl)->0;
    let id = schema.table_id as u64;
    let e = started(db, s, fl).db.engine;
    let tx = db.engine.next_tx;
    let ws = changes_of(db, s, fl);
    let d = after_change(db, s, fl);
    lemma_changes(db, s, fl);
    assert forall|i: int| k < i < ws.len() implies target(#[trigger] ws[i]) != target(ws[k]) by {
        assert(rows[i].0 != rows[k].0);
    }
    lemma_last_write_stays(e, tx, k, fl);
    let b = row_bytes(rows[k].1);
    a_scan_holds_every_row(d.engine.tables, id, rows[k].0, d.engine.clock);
    let all = rows_at(d.engine.tables, id, d.engine.clock);
    let i = choose|i: int| 0 <= i < all.len() && all[i] == (rows[k].0, b);
    rows_read_back(rows[k].1);
    lemma_decoded_holds(all, 0, i);
}

// ---- rows that are not changed ----------------------------------------------------------

/// Every version of a store has begun by `ts`, and has ended by then unless it lives.
pub open spec fn all_known(tables: Map<u64, TableModel>, ts: u64) -> bool {
    forall|t: u64, r: u64|
        #![trigger chain_of(tables[t], r)]
        tables.dom().contains(t) ==> known_by(chain_of(tables[t], r), ts)
}

proof fn lemma_same_by_then(chain: Seq<Version>, ts: u64, later: u64)
    requires
        known_by(chain, ts),
        ts <= later < TS_INFINITY,
    ensures
        read_at(chain, ts) == read_at(
            chain,
            later,
        ),
{
    lemma_known_later(chain, ts, later);
    the_newest_living_version_is_read(chain, ts);
    the_newest_living_version_is_read(chain, later);
}

/// A row that a statement does not change is read as before once the change is made.
pub proof fn other_rows_are_left(
    db: Db,
    s: StatementModel,
    fl: FloatModel,
    table_id: u64,
    row_id: u64,
)
    requires
        in_time(db.engine),
        db.engine.clock < TS_INFINITY - 1,
        all_known(db.engine.tables, db.engine.clock),
        match changed(db, s, fl) {
            Some((schema, rows)) => table_id != schema.table_id as u64 || forall|j: int|
                0 <= j < rows.len() ==> (#[trigger] rows[j]).0 != row_id,
            None => false,
        },
    ensures
        ({
            let d = after_change(db, s, fl);
            stored_at(d.engine.tables, table_id, row_id, d.engine.clock) == stored_at(
                db.engine.tables,
                table_id,
                row_id,
                db.engine.clock,
            )
        }),
{
    let (schema, rows) = changed(db, s, fl)->0;
    let e = started(db, s, fl).db.engine;
    let tx = db.engine.next_tx;
    let ws = changes_of(db, s, fl);
    let ts = (e.clock + 1) as u64;
    lemma_changes(db, s, fl);
    assert forall|i: int| 0 <= i < ws.len() implies target(#[trigger] ws[i]) != (
        table_id,
        row_id,
    ) by {
        assert(rows[i].0 == target(ws[i]).1);
    }
    other_rows_stay(e.tables, ws, ws.len() as int, ts, fl, table_id, row_id);
    let snapshots = e.snapshots.remove(tx);
    assert(snapshots.dom() =~= e.snapshots.dom().remove(tx));
    lemma_horizon(snapshots, ts, tx);
    lemma_sweeps_are_safe(
        all_written(e.tables, ws, ws.len() as int, ts, fl),
        e.retention,
        ws,
        ws.len() as int,
        horizon(snapshots, ts),
        fl,
        table_id,
        row_id,
        ts,
    );
    if db.engine.tables.dom().contains(table_id) {
        let chain = chain_of(db.engine.tables[table_id], row_id);
        lemma_same_by_then(chain, e.clock, ts);
    }
}

proof fn lemma_known_is_agreement(a: Map<u64, TableModel>, ts: u64)
    requires
        all_known(a, ts),
    ensures
        stores_agree(a, a, ts),
{
    assert forall|t: u64| #[trigger] a.dom().contains(t) implies tables_agree(a[t], a[t], ts) by {
        assert forall|r: u64| #[trigger] a[t].rows.dom().contains(r) implies known_by(
            a[t].rows[r],
            ts,
        ) by {
            assert(known_by(chain_of(a[t], r), ts));
        }
    }
}

proof fn lemma_agreement_is_known(
    a: Map<u64, TableModel>,
    b: Map<u64, TableModel>,
    ts: u64,
)
    requires
        stores_agree(a, b, ts),
    ensures
        all_known(a, ts),
{
    assert forall|t: u64, r: u64|
        #![trigger chain_of(a[t], r)]
        a.dom().contains(t) implies known_by(chain_of(a[t], r), ts) by {
        assert(tables_agree(a[t], b[t], ts));
        if a[t].rows.dom().contains(r) {
            assert(known_by(a[t].rows[r], ts));
        }
    }
}

/// No version begins or ends ahead of the clock, before a statement is run or after.
pub proof fn versions_stay_known(db: Db, s: StatementModel, fl: FloatModel)
    requires
        in_time(db.engine),
        db.engine.clock < TS_INFINITY - 1,
        all_known(db.engine.tables, db.engine.clock),
    ensures
        all_known(after_change(db, s, fl).engine.tables, after_change(db, s, fl).engine.clock),
        in_time(after_change(db, s, fl).engine),
{
    let b = started(db, s, fl);
    let id: u64 = match table_named(db.catalog, changed_table(s)) {
        Some(t) => t.table_id as u64,
        None => 0,
    };
    lemma_known_is_agreement(db.engine.tables, db.engine.clock);
    if changed(db, s, fl) is Some {
        let e = b.db.engine;
        let tx = db.engine.next_tx;
        let ws = changes_of(db, s, fl);
        let ts = (e.clock + 1) as u64;
        let snapshots = e.snapshots.remove(tx);
        lemma_changes(db, s, fl);
        assert(snapshots.dom() =~= e.snapshots.dom().remove(tx));
        lemma_horizon(snapshots, ts, tx);
        lemma_agree_with_table(db.engine.tables, db.engine.tables, id, e.clock);
        lemma_agree_later(e.tables, e.tables, e.clock, ts);
        lemma_agree_all_written(e.tables, e.tables, ws, ws.len() as int, ts, fl);
        let a = all_written(e.tables, ws, ws.len() as int, ts, fl);
        let h = horizon(snapshots, ts);
        lemma_agree_after_sweeps(a, a, e.retention, ws, ws.len() as int, h, ts, fl);
        lemma_agreement_is_known(committed(e, tx, fl).tables, a, ts);
    } else {
        match s {
            StatementModel::Insert(q) => {
                insertions_are_buffered(db, q, fl);
            },
            StatementModel::Update(q) => {
                replacements_are_buffered(db, q, fl);
            },
            StatementModel::Delete(q) => {
                removals_are_buffered(db, q, fl);
            },
            StatementModel::CreateTable(q) => {
                if let Ok(schema) = new_schema(db.catalog, q) {
                    let new_id = schema.table_id as u64;
                    let more = with_table(db.engine.tables, new_id);
                    lemma_agree_with_table(
                        db.engine.tables,
                        db.engine.tables,
                        new_id,
                        db.engine.clock,
                    );
                    lemma_agreement_is_known(more, more, db.engine.clock);
                }
            },
            _ => {},
        }
        let more = with_table(db.engine.tables, id);
        lemma_agree_with_table(db.engine.tables, db.engine.tables, id, db.engine.clock);
        lemma_agreement_is_known(more, more, db.engine.clock);
    }
}

// ---- rows that are deleted --------------------------------------------------------------

/// No id occurs twice.
pub open spec fn ids_differ<T>(rows: Seq<(u64, T)>) -> bool {
    forall|i: int, j: int|
        0 <= i < j < rows.len() ==> (#[trigger] rows[i]).0 != (#[trigger] rows[j]).0
}

proof fn lemma_seen_in_order(t: TableModel, ids: Seq<u64>, i: int, snap: u64)
    requires
        ascending(ids),
        0 <= i,
    ensures
        ids_differ(seen_from(t, ids, i, snap)),
        forall|j: int|
            0 <= j < seen_from(t, ids, i, snap).len() ==> (i < ids.len() && (
            #[trigger] seen_from(t, ids, i, snap)[j]).0 >= ids[i]),
    decreases ids.len() - i,
{
    if i < ids.len() {
        lemma_seen_in_order(t, ids, i + 1, snap);
        let rest = seen_from(t, ids, i + 1, snap);
        let all = seen_from(t, ids, i, snap);
        assert forall|j: int| 0 <= j < rest.len() implies (#[trigger] rest[j]).0 > ids[i] by {
            assert(ids[i] < ids[i + 1]);
        }
        if row_at(t, ids[i], snap) is Some {
            assert forall|j: int| 0 < j < all.len() implies #[trigger] all[j] == rest[j - 1] by {}
            assert forall|x: int, y: int| 0 <= x < y < all.len() implies (#[trigger] all[x]).0 != (
            #[trigger] all[y]).0 by {
                assert(all[y] == rest[y - 1]);
                if x > 0 {
                    assert(all[x] == rest[x - 1]);
                }
            }
        }
    }
}

pub(crate) proof fn lemma_mentioned_once(ids: Seq<u64>, n: int)
    ensures
        forall|i: int, j: int|
            0 <= i < j < first_mentions(ids, n).len() ==> #[trigger] first_mentions(ids, n)[i]
                != #[trigger] first_mentions(ids, n)[j],
    decreases n,
{
    if 0 < n <= ids.len() {
        lemma_mentioned_once(ids, n - 1);
        let before = first_mentions(ids, n - 1);
        let all = first_mentions(ids, n);
        assert forall|i: int, j: int| 0 <= i < j < all.len() implies #[trigger] all[i]
            != #[trigger] all[j] by {
            if j == before.len() {
                assert(before.contains(all[i]));
            }
        }
    }
}

pub(crate) proof fn lemma_stored_once(db: Db, table_id: u64, ids: Seq<u64>, i: int)
    requires
        0 <= i,
        forall|x: int, y: int| 0 <= x < y < ids.len() ==> #[trigger] ids[x] != #[trigger] ids[y],
    ensures
        ids_differ(stored_rows(db, table_id, ids, i)),
        forall|j: int|
            0 <= j < stored_rows(db, table_id, ids, i).len() ==> exists|k: int|
                i <= k < ids.len() && (#[trigger] stored_rows(db, table_id, ids, i)[j]).0
                    == #[trigger] ids[k],
    decreases ids.len() - i,
{
    if i < ids.len() {
        lemma_stored_once(db, table_id, ids, i + 1);
        let rest = stored_rows(db, table_id, ids, i + 1);
        let all = stored_rows(db, table_id, ids, i);
        let more = all.len() - rest.len();
        assert forall|j: int| more <= j < all.len() implies #[trigger] all[j] == rest[j - more] by {}
        assert forall|j: int| 0 <= j < all.len() implies exists|k: int|
            i <= k < ids.len() && (#[trigger] all[j]).0 == #[trigger] ids[k] by {
            if j >= more {
                assert(all[j] == rest[j - more]);
                let k = choose|k: int|
                    i + 1 <= k < ids.len() && rest[j - more].0 == #[trigger] ids[k];
                assert(all[j].0 == ids[k]);
            } else {
                assert(all[j].0 == ids[i]);
            }
        }
        assert forall|x: int, y: int| 0 <= x < y < all.len() implies (#[trigger] all[x]).0 != (
        #[trigger] all[y]).0 by {
            assert(all[y] == rest[y - more]);
            if x >= more {
                assert(all[x] == rest[x - more]);
            } else {
                let k = choose|k: int|
                    i + 1 <= k < ids.len() && rest[y - more].0 == #[trigger] ids[k];
                assert(ids[i] != ids[k]);
            }
        }
    }
}

pub(crate) proof fn lemma_rows_at_differ(tables: Map<u64, TableModel>, table_id: u64, snap: u64)
    ensures
        ids_differ(rows_at(tables, table_id, snap)),
{
    if tables.dom().contains(table_id) {
        let t = tables[table_id];
        in_order_lists(t.rows.dom());
        lemma_seen_in_order(t, in_order(t.rows.dom()), 0, snap);
    }
}

proof fn lemma_candidates_differ(db: Db, s: SchemaModel, clause: Option<Seq<char>>, fl: FloatModel)
    ensures
        ids_differ(write_candidates(db, s, clause, fl)),
{
    let id = s.table_id as u64;
    lemma_rows_at_differ(db.engine.tables, id, db.engine.clock);
    if let Some(p) = clause {
        let t = tokens_of(p);
        if let Some(ids) = candidate_ids(db, s, t[0], t[1], t[2], fl) {
            let once = first_mentions(ids, ids.len() as int);
            lemma_mentioned_once(ids, ids.len() as int);
            lemma_stored_once(db, id, once, 0);
        }
    }
}

/// Rows that were done before the `i`-th candidate.
spec fn done_before(done: Seq<(u64, Seq<Datum>)>, rows: Seq<(u64, Seq<u8>)>, i: int) -> bool {
    &&& ids_differ(done)
    &&& forall|x: int, y: int|
        0 <= x < done.len() && i <= y < rows.len() ==> (#[trigger] done[x]).0 != (
        #[trigger] rows[y]).0
}

proof fn lemma_one_more_done(
    done: Seq<(u64, Seq<Datum>)>,
    rows: Seq<(u64, Seq<u8>)>,
    i: int,
    row: Seq<Datum>,
)
    requires
        ids_differ(rows),
        0 <= i < rows.len(),
        done_before(done, rows, i),
    ensures
        done_before(done, rows, i + 1),
        done_before(done.push((rows[i].0, row)), rows, i + 1),
{
    let more = done.push((rows[i].0, row));
    assert forall|x: int, y: int| 0 <= x < y < more.len() implies (#[trigger] more[x]).0 != (
    #[trigger] more[y]).0 by {
        assert(more[x] == done[x]);
        if y < done.len() {
            assert(more[y] == done[y]);
        }
    }
    assert forall|x: int, y: int| 0 <= x < more.len() && i + 1 <= y < rows.len() implies (
    #[trigger] more[x]).0 != (#[trigger] rows[y]).0 by {
        if x < done.len() {
            assert(more[x] == done[x]);
        } else {
            assert(rows[i].0 != rows[y].0);
        }
    }
}

proof fn lemma_deleted_once(
    e: Engine,
    tx: u64,
    table_id: u64,
    clause: Option<Expr>,
    rows: Seq<(u64, Seq<u8>)>,
    i: int,
    done: Seq<(u64, Seq<Datum>)>,
    fl: FloatModel,
)
    requires
        ids_differ(rows),
        0 <= i,
        done_before(done, rows, i),
    ensures
        rows_deleted(e, tx, table_id, clause, rows, i, done, fl).result matches Ok(gone) ==> (
        ids_differ(gone)),
    decreases rows.len() - i,
{
    if i < rows.len() {
        let row_id = rows[i].0;
        lemma_one_more_done(done, rows, i, Seq::empty());
        lemma_deleted_once(e, tx, table_id, clause, rows, i + 1, done, fl);
        if let Some(row) = bytes_row(rows[i].1) {
            let w = wrote(e, tx, table_id, row_id, Write::Delete { table_id, row_id });
            lemma_one_more_done(done, rows, i, row);
            let more = done.push((row_id, row));
            lemma_deleted_once(w.0, tx, table_id, clause, rows, i + 1, more, fl);
        }
    }
}

/// A deletion names each row once.
pub proof fn a_deletion_names_each_row_once(db: Db, q: DeleteModel, fl: FloatModel)
    ensures
        delete_staged(db, q, fl).result matches Ok(rows) ==> ids_differ(rows),
{
    if let Some(s) = table_named(db.catalog, q.table) {
        let e = opened(db.engine, s.table_id as u64);
        if let Ok(clause) = clause_predicate(q.where_clause, s, fl) {
            let now = Db { engine: e, ..db };
            lemma_candidates_differ(now, s, q.where_clause, fl);
            lemma_deleted_once(
                e,
                db.engine.next_tx,
                s.table_id as u64,
                clause,
                write_candidates(now, s, q.where_clause, fl),
                0,
                Seq::empty(),
                fl,
            );
        }
    }
}

/// A row that a statement deletes is no longer read once the change is made.
pub proof fn a_deleted_row_is_gone(db: Db, q: DeleteModel, fl: FloatModel, k: int)
    requires
        in_time(db.engine),
        db.engine.clock < TS_INFINITY - 1,
        all_known(db.engine.tables, db.engine.clock),
        match changed(db, StatementModel::Delete(q), fl) {
            Some((_, rows)) => 0 <= k < rows.len(),
            None => false,
        },
    ensures
        ({
            let s = StatementModel::Delete(q);
            let (schema, rows) = changed(db, s, fl)->0;
            let d = after_change(db, s, fl);
            stored_at(d.engine.tables, schema.table_id as u64, rows[k].0, d.engine.clock) is None
        }),
{
    let s = StatementModel::Delete(q);
    let (schema, rows) = changed(db, s, fl)->0;
    let id = schema.table_id as u64;
    let row_id = rows[k].0;
    let e = started(db, s, fl).db.engine;
    let tx = db.engine.next_tx;
    let ws = changes_of(db, s, fl);
    let ts = (e.clock + 1) as u64;
    lemma_changes(db, s, fl);
    a_deletion_names_each_row_once(db, q, fl);
    assert forall|i: int| 0 <= i < ws.len() && i != k implies target(#[trigger] ws[i]) != (
        id,
        row_id,
    ) by {
        if i < k {
            assert(rows[i].0 != rows[k].0);
        } else {
            assert(rows[k].0 != rows[i].0);
        }
    }
    let before = all_written(e.tables, ws, k, ts, fl);
    let after = all_written(e.tables, ws, k + 1, ts, fl);
    let end = all_written(e.tables, ws, ws.len() as int, ts, fl);
    other_rows_stay(e.tables, ws, k, ts, fl, id, row_id);
    lemma_tables_stay(e.tables, ws, k + 1, ts, fl);
    lemma_tables_stay(e.tables, ws, ws.len() as int, ts, fl);
    lemma_rest_stays(e.tables, ws, k + 1, ws.len() as int, ts, fl, id, row_id);
    let chain = chain_of(e.tables[id], row_id);
    assert(chain_of(before[id], row_id) == chain);
    assert(ws[k] == Write::Delete { table_id: id, row_id });
    lemma_known_later(chain, e.clock, ts);
    lemma_living_expired(chain, ts);
    let gone = chain_of(end[id], row_id);
    assert(gone == chain_of(after[id], row_id));
    assert(living(gone).len() == 0);
    the_newest_living_version_is_read(gone, ts);
    let snapshots = e.snapshots.remove(tx);
    assert(snapshots.dom() =~= e.snapshots.dom().remove(tx));
    lemma_horizon(snapshots, ts, tx);
    lemma_sweeps_are_safe(
        end,
        e.retention,
        ws,
        ws.len() as int,
        horizon(snapshots, ts),
        fl,
        id,
        row_id,
        ts,
    );
}

// ---- statements that are refused --------------------------------------------------------

/// Whether two databases hold the same: the same tables with the same rows, the same
/// indexes, and the same knowledge of columns.
pub open spec fn holds_the_same(a: Db, b: Db) -> bool {
    &&& a.catalog == b.catalog
    &&& a.indexes == b.indexes
    &&& a.stats == b.stats
    &&& a.engine.clock == b.engine.clock
    &&& forall|name: Seq<char>| #[trigger] table_scan(a, name) == table_scan(b, name)
    &&& forall|t: u64, r: u64| #[trigger]
        stored_at(a.engine.tables, t, r, a.engine.clock) == stored_at(
            b.engine.tables,
            t,
            r,
            b.engine.clock,
        )
}

pub(crate) proof fn lemma_new_table_is_empty(tables: Map<u64, TableModel>, id: u64, t: u64, snap: u64)
    ensures
        rows_at(with_table(tables, id), t, snap) == rows_at(tables, t, snap),
        forall|r: u64| #[trigger]
            stored_at(with_table(tables, id), t, r, snap) == stored_at(tables, t, r, snap),
{
    if !tables.dom().contains(id) && t == id {
        let more = with_table(tables, id);
        let ids = in_order(more[id].rows.dom());
        in_order_lists(more[id].rows.dom());
        if ids.len() > 0 {
            assert(ids.contains(ids[0]));
        }
        assert(rows_at(more, t, snap) =~= Seq::<(u64, Seq<u8>)>::empty());
    }
}

proof fn lemma_holds_the_same(db: Db, e: Engine, id: u64)
    requires
        e.clock == db.engine.clock,
        e.tables == db.engine.tables || e.tables == with_table(db.engine.tables, id),
    ensures
        holds_the_same(Db { engine: e, ..db }, db),
{
    let a = Db { engine: e, ..db };
    assert forall|name: Seq<char>| #[trigger] table_scan(a, name) == table_scan(db, name) by {
        if let Some(s) = table_named(db.catalog, name) {
            lemma_new_table_is_empty(db.engine.tables, id, s.table_id as u64, e.clock);
        }
    }
    assert forall|t: u64, r: u64| #[trigger]
        stored_at(a.engine.tables, t, r, a.engine.clock) == stored_at(
            db.engine.tables,
            t,
            r,
            db.engine.clock,
        ) by {
        lemma_new_table_is_empty(db.engine.tables, id, t, e.clock);
    }
}

/// A statement that is refused, or cancelled before its change is made, leaves a
/// database that holds the same as before.
pub proof fn a_refused_statement_changes_nothing(db: Db, s: StatementModel, fl: FloatModel)
    ensures
        ({
            let b = started(db, s, fl);
            match b.result {
                Err(_) => holds_the_same(b.db, db),
                Ok(StepModel::Log(_, p)) => holds_the_same(cancelled(b.db, p), db),
                Ok(StepModel::Answer(_)) => s is Analyze || holds_the_same(b.db, db),
            }
        }),
{
    let b = started(db, s, fl);
    match s {
        StatementModel::Insert(q) => {
            insertions_are_buffered(db, q, fl);
            let id = match table_named(db.catalog, q.table) {
                Some(t) => t.table_id as u64,
                None => 0,
            };
            lemma_holds_the_same(db, b.db.engine, id);
            lemma_holds_the_same(db, aborted(b.db.engine, db.engine.next_tx), id);
        },
        StatementModel::Update(q) => {
            replacements_are_buffered(db, q, fl);
            let id = match table_named(db.catalog, q.table) {
                Some(t) => t.table_id as u64,
                None => 0,
            };
            lemma_holds_the_same(db, b.db.engine, id);
            lemma_holds_the_same(db, aborted(b.db.engine, db.engine.next_tx), id);
        },
        StatementModel::Delete(q) => {
            removals_are_buffered(db, q, fl);
            let id = match table_named(db.catalog, q.table) {
                Some(t) => t.table_id as u64,
                None => 0,
            };
            lemma_holds_the_same(db, b.db.engine, id);
            lemma_holds_the_same(db, aborted(b.db.engine, db.engine.next_tx), id);
        },
        _ => {},
    }
}

} // verus!
