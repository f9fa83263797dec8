//! What a log keeps of a database.
//!
//! A database is rebuilt from its log by replaying the writes of each commit. The
//! rebuilt tables have versions that were swept from the first ones, but a version
//! that is swept has ended: the versions that live are the same, and so is every
//! row that is read.

use vstd::prelude::*;
use crate::execution::catalog::{
    distinct_ids, highest_id_bounds, id_from, id_place, registered, registering_keeps_ids_distinct,
    table_from, table_named, SchemaModel,
};
use crate::execution::changes::{
    commits_nothing, delete_staged, insert_staged, insertions_are_buffered, removals_are_buffered,
    replacements_are_buffered, update_staged, Outcome,
};
use crate::execution::definitions::{built_index, index_target, new_schema, with_index};
use crate::execution::executor::{new_db, Db};
use crate::execution::ids::in_order;
use crate::execution::learned_retention::Retention;
use crate::execution::mvcc_store::{
    all_written, chain_of, ended, expired, ids_in_range, lemma_tables_stay, pruned, pushed, read_at,
    row_at, seen_from, stored_at, swept_store, target, with_table, written, TableModel, Version,
    Write, TS_INFINITY,
};
use crate::execution::oltp::{
    aborted, after_sweeps, buffer_of, committed, horizon, lemma_horizon, new_engine, rows_at,
    snapshots_in_the_past, Engine,
};
use crate::execution::recovery::{rebuilt, replayed, Rebuilt};
use crate::execution::scan::{first_mentions, key_range, key_rows, stored_rows, table_scan};
use crate::execution::statements::{
    cancelled, indexes_built, nothing_rebuilt, reopened, settled, started, PendingModel, StepModel,
};
use crate::execution::wal::Record;
use crate::float::FloatModel;
use crate::sql::parser::{CreateIndexModel, StatementModel};

verus! {

// ---- the versions that live -------------------------------------------------------------

/// The bytes of the versions that live, newest first.
pub open spec fn living(chain: Seq<Version>) -> Seq<Seq<u8>>
    decreases chain.len(),
{
    if chain.len() == 0 {
        Seq::empty()
    } else if chain[0].end_ts == TS_INFINITY {
        seq![chain[0].data] + living(chain.drop_first())
    } else {
        living(chain.drop_first())
    }
}

/// Every version has begun by `ts`, and has ended by then unless it lives.
pub open spec fn known_by(chain: Seq<Version>, ts: u64) -> bool {
    forall|i: int|
        0 <= i < chain.len() ==> (#[trigger] chain[i]).begin_ts <= ts && (chain[i].end_ts
            == TS_INFINITY || chain[i].end_ts <= ts)
}

proof fn lemma_rest_known(chain: Seq<Version>, ts: u64)
    requires
        known_by(chain, ts),
        chain.len() > 0,
    ensures
        known_by(chain.drop_first(), ts),
{
    let rest = chain.drop_first();
    assert forall|i: int| 0 <= i < rest.len() implies (#[trigger] rest[i]).begin_ts <= ts && (
    rest[i].end_ts == TS_INFINITY || rest[i].end_ts <= ts) by {
        assert(rest[i] == chain[i + 1]);
    }
}

/// A snapshot of now reads the newest version that lives.
pub proof fn the_newest_living_version_is_read(chain: Seq<Version>, ts: u64)
    requires
        known_by(chain, ts),
        ts < TS_INFINITY,
    ensures
        read_at(chain, ts) == (if living(chain).len() > 0 {
            Some(living(chain)[0])
        } else {
            None
        }),
    decreases chain.len(),
{
    if chain.len() > 0 {
        lemma_rest_known(chain, ts);
        the_newest_living_version_is_read(chain.drop_first(), ts);
        assert(chain[0].begin_ts <= ts);
    }
}

pub(crate) proof fn lemma_living_pushed(chain: Seq<Version>, ts: u64, data: Seq<u8>)
    requires
        known_by(chain, ts),
    ensures
        living(pushed(chain, ts, data)) == seq![data] + living(chain),
        known_by(pushed(chain, ts, data), ts),
{
    let p = pushed(chain, ts, data);
    assert(p.drop_first() =~= chain);
    assert forall|i: int| 0 <= i < p.len() implies (#[trigger] p[i]).begin_ts <= ts && (p[i].end_ts
        == TS_INFINITY || p[i].end_ts <= ts) by {
        if i > 0 {
            assert(p[i] == chain[i - 1]);
        }
    }
}

pub(crate) proof fn lemma_living_expired(chain: Seq<Version>, ts: u64)
    requires
        known_by(chain, ts),
        ts < TS_INFINITY,
    ensures
        living(expired(chain, ts)) == Seq::<Seq<u8>>::empty(),
        known_by(expired(chain, ts), ts),
    decreases chain.len(),
{
    let e = expired(chain, ts);
    assert forall|i: int| 0 <= i < e.len() implies (#[trigger] e[i]).begin_ts <= ts && (e[i].end_ts
        == TS_INFINITY || e[i].end_ts <= ts) by {
        assert(e[i] == ended(chain[i], ts));
    }
    if chain.len() > 0 {
        lemma_rest_known(chain, ts);
        lemma_living_expired(chain.drop_first(), ts);
        assert(e.drop_first() =~= expired(chain.drop_first(), ts));
    }
}

pub(crate) proof fn lemma_living_pruned(chain: Seq<Version>, h: u64, ts: u64)
    requires
        known_by(chain, ts),
        h < TS_INFINITY,
    ensures
        living(pruned(chain, h)) == living(chain),
        known_by(pruned(chain, h), ts),
    decreases chain.len(),
{
    if chain.len() > 0 {
        let rest = chain.drop_first();
        lemma_rest_known(chain, ts);
        lemma_living_pruned(rest, h, ts);
        if chain[0].end_ts > h {
            let p = pruned(chain, h);
            assert(p.drop_first() =~= pruned(rest, h));
            assert forall|i: int| 0 <= i < p.len() implies (#[trigger] p[i]).begin_ts <= ts && (
            p[i].end_ts == TS_INFINITY || p[i].end_ts <= ts) by {
                assert(chain[0].begin_ts <= ts);
                if i > 0 {
                    assert(p[i] == pruned(rest, h)[i - 1]);
                }
            }
        }
    }
}

// ---- tables that agree ------------------------------------------------------------------

/// Whether two tables agree by `ts`: they have the same row ids, in their index too,
/// and the same versions of each row live.
pub open spec fn tables_agree(a: TableModel, b: TableModel, ts: u64) -> bool {
    &&& a.index == b.index
    &&& a.rows.dom() == b.rows.dom()
    &&& forall|id: u64| #[trigger]
        a.rows.dom().contains(id) ==> living(a.rows[id]) == living(b.rows[id]) && known_by(
            a.rows[id],
            ts,
        ) && known_by(b.rows[id], ts)
}

/// Whether two stores agree by `ts`: they have the same tables, which agree.
pub open spec fn stores_agree(
    a: Map<u64, TableModel>,
    b: Map<u64, TableModel>,
    ts: u64,
) -> bool {
    &&& a.dom() == b.dom()
    &&& forall|id: u64| #[trigger] a.dom().contains(id) ==> tables_agree(a[id], b[id], ts)
}

pub(crate) proof fn lemma_known_later(chain: Seq<Version>, ts: u64, later: u64)
    requires
        known_by(chain, ts),
        ts <= later,
    ensures
        known_by(chain, later),
{
    assert forall|i: int| 0 <= i < chain.len() implies (#[trigger] chain[i]).begin_ts <= later && (
    chain[i].end_ts == TS_INFINITY || chain[i].end_ts <= later) by {
        assert(chain[i].begin_ts <= ts);
    }
}

pub(crate) proof fn lemma_agree_later(
    a: Map<u64, TableModel>,
    b: Map<u64, TableModel>,
    ts: u64,
    later: u64,
)
    requires
        stores_agree(a, b, ts),
        ts <= later,
    ensures
        stores_agree(a, b, later),
{
    assert forall|id: u64| #[trigger] a.dom().contains(id) implies tables_agree(
        a[id],
        b[id],
        later,
    ) by {
        assert forall|row: u64| #[trigger] a[id].rows.dom().contains(row) implies living(
            a[id].rows[row],
        ) == living(b[id].rows[row]) && known_by(a[id].rows[row], later) && known_by(
            b[id].rows[row],
            later,
        ) by {
            lemma_known_later(a[id].rows[row], ts, later);
            lemma_known_later(b[id].rows[row], ts, later);
        }
    }
}

pub(crate) proof fn lemma_agree_with_table(
    a: Map<u64, TableModel>,
    b: Map<u64, TableModel>,
    id: u64,
    ts: u64,
)
    requires
        stores_agree(a, b, ts),
    ensures
        stores_agree(with_table(a, id), with_table(b, id), ts),
{
    assert(with_table(a, id).dom() =~= with_table(b, id).dom());
}

proof fn lemma_agree_written(
    a: Map<u64, TableModel>,
    b: Map<u64, TableModel>,
    w: Write,
    ts: u64,
    fl: FloatModel,
)
    requires
        stores_agree(a, b, ts),
        ts < TS_INFINITY,
    ensures
        stores_agree(written(a, w, ts, fl), written(b, w, ts, fl), ts),
{
    let (id, row) = target(w);
    if a.dom().contains(id) {
        let x = written(a, w, ts, fl);
        let y = written(b, w, ts, fl);
        assert(tables_agree(a[id], b[id], ts));
        let p = chain_of(a[id], row);
        let q = chain_of(b[id], row);
        assert(living(p) == living(q) && known_by(p, ts) && known_by(q, ts));
        let data = match w {
            Write::Insert { data, .. } => data,
            Write::Update { data, .. } => data,
            Write::Delete { .. } => Seq::empty(),
        };
        lemma_living_pushed(p, ts, data);
        lemma_living_pushed(q, ts, data);
        lemma_living_expired(p, ts);
        lemma_living_expired(q, ts);
        lemma_living_pushed(expired(p, ts), ts, data);
        lemma_living_pushed(expired(q, ts), ts, data);
        assert(x[id].rows.dom() =~= y[id].rows.dom());
        assert(tables_agree(x[id], y[id], ts)) by {
            assert forall|r: u64| #[trigger] x[id].rows.dom().contains(r) implies living(
                x[id].rows[r],
            ) == living(y[id].rows[r]) && known_by(x[id].rows[r], ts) && known_by(
                y[id].rows[r],
                ts,
            ) by {
                if r != row {
                    assert(a[id].rows.dom().contains(r));
                }
            }
        }
        assert(x.dom() =~= a.dom());
        assert(y.dom() =~= b.dom());
        assert forall|t: u64| #[trigger] x.dom().contains(t) implies tables_agree(
            x[t],
            y[t],
            ts,
        ) by {
            assert(a.dom().contains(t));
        }
    }
}

pub(crate) proof fn lemma_agree_all_written(
    a: Map<u64, TableModel>,
    b: Map<u64, TableModel>,
    ws: Seq<Write>,
    n: int,
    ts: u64,
    fl: FloatModel,
)
    requires
        stores_agree(a, b, ts),
        ts < TS_INFINITY,
        n <= ws.len(),
    ensures
        stores_agree(all_written(a, ws, n, ts, fl), all_written(b, ws, n, ts, fl), ts),
    decreases n,
{
    if n > 0 {
        lemma_agree_all_written(a, b, ws, n - 1, ts, fl);
        lemma_agree_written(
            all_written(a, ws, n - 1, ts, fl),
            all_written(b, ws, n - 1, ts, fl),
            ws[n - 1],
            ts,
            fl,
        );
    }
}

proof fn lemma_agree_swept(
    a: Map<u64, TableModel>,
    b: Map<u64, TableModel>,
    id: u64,
    row: u64,
    h: u64,
    ts: u64,
)
    requires
        stores_agree(a, b, ts),
        h < TS_INFINITY,
    ensures
        stores_agree(swept_store(a, id, row, h), b, ts),
{
    if a.dom().contains(id) {
        let x = swept_store(a, id, row, h);
        assert(tables_agree(a[id], b[id], ts));
        if a[id].rows.dom().contains(row) {
            lemma_living_pruned(a[id].rows[row], h, ts);
        }
        assert(x[id].rows.dom() =~= b[id].rows.dom());
        assert(tables_agree(x[id], b[id], ts)) by {
            assert forall|r: u64| #[trigger] x[id].rows.dom().contains(r) implies living(
                x[id].rows[r],
            ) == living(b[id].rows[r]) && known_by(x[id].rows[r], ts) && known_by(
                b[id].rows[r],
                ts,
            ) by {
                assert(a[id].rows.dom().contains(r));
            }
        }
        assert(x.dom() =~= b.dom());
        assert forall|t: u64| #[trigger] x.dom().contains(t) implies tables_agree(
            x[t],
            b[t],
            ts,
        ) by {
            assert(a.dom().contains(t));
        }
    }
}

pub(crate) proof fn lemma_agree_after_sweeps(
    a: Map<u64, TableModel>,
    b: Map<u64, TableModel>,
    p: Retention,
    ws: Seq<Write>,
    n: int,
    h: u64,
    ts: u64,
    fl: FloatModel,
)
    requires
        stores_agree(a, b, ts),
        h < TS_INFINITY,
    ensures
        stores_agree(after_sweeps(a, p, ws, n, h, fl).0, b, ts),
    decreases n,
{
    if n > 0 {
        lemma_agree_after_sweeps(a, b, p, ws, n - 1, h, ts, fl);
        let (id, row) = target(ws[n - 1]);
        lemma_agree_swept(after_sweeps(a, p, ws, n - 1, h, fl).0, b, id, row, h, ts);
    }
}

// ---- reading stores that agree ----------------------------------------------------------

proof fn lemma_seen_alike(a: TableModel, b: TableModel, ids: Seq<u64>, i: int, ts: u64)
    requires
        tables_agree(a, b, ts),
        ts < TS_INFINITY,
        0 <= i,
    ensures
        seen_from(a, ids, i, ts) == seen_from(b, ids, i, ts),
    decreases ids.len() - i,
{
    if i < ids.len() {
        lemma_seen_alike(a, b, ids, i + 1, ts);
        lemma_row_alike(a, b, ids[i], ts);
    }
}

proof fn lemma_row_alike(a: TableModel, b: TableModel, id: u64, ts: u64)
    requires
        tables_agree(a, b, ts),
        ts < TS_INFINITY,
    ensures
        row_at(a, id, ts) == row_at(b, id, ts),
{
    let p = chain_of(a, id);
    let q = chain_of(b, id);
    assert(a.rows.dom().contains(id) <==> b.rows.dom().contains(id));
    assert(living(p) == living(q) && known_by(p, ts) && known_by(q, ts));
    the_newest_living_version_is_read(p, ts);
    the_newest_living_version_is_read(q, ts);
}

/// Stores that agree hold the same rows.
pub proof fn agreeing_stores_hold_the_same_rows(
    a: Map<u64, TableModel>,
    b: Map<u64, TableModel>,
    ts: u64,
    table_id: u64,
    row_id: u64,
)
    requires
        stores_agree(a, b, ts),
        ts < TS_INFINITY,
    ensures
        stored_at(a, table_id, row_id, ts) == stored_at(b, table_id, row_id, ts),
        rows_at(a, table_id, ts) == rows_at(b, table_id, ts),
{
    if a.dom().contains(table_id) {
        assert(b.dom().contains(table_id));
        assert(tables_agree(a[table_id], b[table_id], ts));
        lemma_row_alike(a[table_id], b[table_id], row_id, ts);
        lemma_seen_alike(
            a[table_id],
            b[table_id],
            in_order(a[table_id].rows.dom()),
            0,
            ts,
        );
    } else {
        assert(!b.dom().contains(table_id));
    }
}

// ---- a database and its log -------------------------------------------------------------

/// Whether an index that is to be built is over a column that there is.
pub open spec fn can_be_built(catalog: Seq<SchemaModel>, spec_of: (u64, Seq<char>)) -> bool {
    match id_from(catalog, spec_of.0 as u32, 0) {
        Some(t) => catalog[t].position(spec_of.1) is Some,
        None => false,
    }
}

/// Every table of a catalog is in a store.
pub open spec fn has_tables(tables: Map<u64, TableModel>, catalog: Seq<SchemaModel>) -> bool {
    forall|i: int|
        0 <= i < catalog.len() ==> tables.dom().contains((#[trigger] catalog[i]).table_id as u64)
}

/// Whether a log holds what a database has committed: replayed, it gives the same
/// catalog and clock, and tables that agree.
pub open spec fn log_holds(rs: Seq<Record>, db: Db, fl: FloatModel) -> bool {
    let b = rebuilt(nothing_rebuilt(), rs, rs.len() as int, fl);
    &&& db.catalog == b.catalog
    &&& distinct_ids(db.catalog)
    &&& db.engine.clock == b.top
    &&& stores_agree(db.engine.tables, b.tables, db.engine.clock)
    &&& has_tables(db.engine.tables, db.catalog)
    &&& forall|i: int|
        0 <= i < b.indexes.len() ==> can_be_built(db.catalog, #[trigger] b.indexes[i])
}

/// Whether the transactions of an engine are in order: those that are open are
/// finitely many, and none reads ahead of the clock.
pub open spec fn in_time(e: Engine) -> bool {
    snapshots_in_the_past(e) && e.snapshots.dom().finite()
}

/// An empty log holds a database without tables.
pub proof fn an_empty_log_holds_nothing(fl: FloatModel)
    ensures
        log_holds(Seq::empty(), new_db(Seq::empty()), fl),
        in_time(new_db(Seq::empty()).engine),
{
}

proof fn lemma_rebuilt_push(start: Rebuilt, rs: Seq<Record>, r: Record, n: int, fl: FloatModel)
    requires
        0 <= n <= rs.len(),
    ensures
        rebuilt(start, rs.push(r), n, fl) == rebuilt(start, rs, n, fl),
    decreases n,
{
    if n > 0 {
        lemma_rebuilt_push(start, rs, r, n - 1, fl);
        assert(rs.push(r)[n - 1] == rs[n - 1]);
    }
}

proof fn lemma_one_more(rs: Seq<Record>, r: Record, fl: FloatModel)
    ensures
        rebuilt(nothing_rebuilt(), rs.push(r), rs.push(r).len() as int, fl) == replayed(
            rebuilt(nothing_rebuilt(), rs, rs.len() as int, fl),
            r,
            fl,
        ),
{
    lemma_rebuilt_push(nothing_rebuilt(), rs, r, rs.len() as int, fl);
    assert(rs.push(r)[rs.len() as int] == r);
}

pub(crate) proof fn lemma_named(tables: Seq<SchemaModel>, name: Seq<char>, from: int)
    requires
        0 <= from,
    ensures
        table_from(tables, name, from) matches Some(i) ==> from <= i < tables.len(),
    decreases tables.len() - from,
{
    if from < tables.len() && tables[from].name != name {
        lemma_named(tables, name, from + 1);
    }
}

proof fn lemma_named_is_stored(tables: Map<u64, TableModel>, catalog: Seq<SchemaModel>, name: Seq<char>)
    requires
        has_tables(tables, catalog),
    ensures
        table_named(catalog, name) matches Some(s) ==> tables.dom().contains(s.table_id as u64),
{
    lemma_named(catalog, name, 0);
}

pub(crate) proof fn lemma_one_with_id(catalog: Seq<SchemaModel>, i: int)
    requires
        distinct_ids(catalog),
        0 <= i < catalog.len(),
    ensures
        id_from(catalog, catalog[i].table_id, 0) == Some(i),
{
    id_place(catalog, catalog[i].table_id, 0);
    let j = id_from(catalog, catalog[i].table_id, 0)->0;
    if j < i {
        assert(catalog[j].table_id != catalog[i].table_id);
    }
    if i < j {
        assert(catalog[i].table_id != catalog[j].table_id);
    }
}

proof fn lemma_still_built(catalog: Seq<SchemaModel>, s: SchemaModel, at: (u64, Seq<char>))
    requires
        distinct_ids(catalog),
        id_from(catalog, s.table_id, 0) is None,
        can_be_built(catalog, at),
    ensures
        can_be_built(registered(catalog, s), at),
{
    let more = registered(catalog, s);
    id_place(catalog, at.0 as u32, 0);
    let t = id_from(catalog, at.0 as u32, 0)->0;
    registering_keeps_ids_distinct(catalog, s);
    assert(more == catalog.push(s));
    assert(more[t] == catalog[t]);
    lemma_one_with_id(more, t);
}

/// What is committed is logged: where the record of a change follows a log that
/// holds a database, the log holds the database once the change is made.
proof fn lemma_commit_is_held(rs: Seq<Record>, db: Db, tx: u64, fl: FloatModel)
    requires
        log_holds(rs, db, fl),
        in_time(db.engine),
        db.engine.clock < TS_INFINITY - 1,
    ensures
        log_holds(
            rs.push(
                Record::Commit {
                    commit_ts: (db.engine.clock + 1) as u64,
                    ops: buffer_of(db.engine, tx),
                },
            ),
            Db { engine: committed(db.engine, tx, fl), ..db },
            fl,
        ),
        in_time(committed(db.engine, tx, fl)),
{
    let e = db.engine;
    let ws = buffer_of(e, tx);
    let ts = (e.clock + 1) as u64;
    let rec = Record::Commit { commit_ts: ts, ops: ws };
    let b = rebuilt(nothing_rebuilt(), rs, rs.len() as int, fl);
    let snapshots = e.snapshots.remove(tx);
    let h = horizon(snapshots, ts);
    lemma_one_more(rs, rec, fl);
    assert(snapshots.dom() =~= e.snapshots.dom().remove(tx));
    lemma_horizon(snapshots, ts, tx);
    lemma_agree_later(e.tables, b.tables, e.clock, ts);
    lemma_agree_all_written(e.tables, b.tables, ws, ws.len() as int, ts, fl);
    let a = all_written(e.tables, ws, ws.len() as int, ts, fl);
    let c = all_written(b.tables, ws, ws.len() as int, ts, fl);
    lemma_agree_after_sweeps(a, c, e.retention, ws, ws.len() as int, h, ts, fl);
    let after = committed(e, tx, fl);
    lemma_tables_stay(e.tables, ws, ws.len() as int, ts, fl);
    lemma_tables_stay(b.tables, ws, ws.len() as int, ts, fl);
    assert(after.tables.dom() == e.tables.dom());
    assert(has_tables(after.tables, db.catalog));
    assert(in_time(after));
}


proof fn lemma_change_is_held(rs: Seq<Record>, db: Db, o: Outcome, table: Seq<char>, fl: FloatModel)
    requires
        log_holds(rs, db, fl),
        in_time(db.engine),
        commits_nothing(db, o, table),
    ensures
        log_holds(rs, Db { engine: o.engine, ..db }, fl),
        in_time(o.engine),
{
    lemma_named_is_stored(db.engine.tables, db.catalog, table);
    assert(o.engine.tables == db.engine.tables);
}

proof fn lemma_table_is_held(rs: Seq<Record>, db: Db, s: SchemaModel, fl: FloatModel)
    requires
        log_holds(rs, db, fl),
        id_from(db.catalog, s.table_id, 0) is None,
    ensures
        log_holds(
            rs.push(Record::CreateTable(s)),
            settled(db, PendingModel::Table(s), fl).db,
            fl,
        ),
{
    let b = rebuilt(nothing_rebuilt(), rs, rs.len() as int, fl);
    let id = s.table_id as u64;
    let after = settled(db, PendingModel::Table(s), fl).db;
    lemma_one_more(rs, Record::CreateTable(s), fl);
    registering_keeps_ids_distinct(db.catalog, s);
    lemma_agree_with_table(db.engine.tables, b.tables, id, db.engine.clock);
    assert(after.catalog == db.catalog.push(s));
    assert(has_tables(after.engine.tables, after.catalog)) by {
        assert forall|i: int| 0 <= i < after.catalog.len() implies after.engine.tables.dom().contains(
        (#[trigger] after.catalog[i]).table_id as u64) by {
            if i < db.catalog.len() {
                assert(db.engine.tables.dom().contains(db.catalog[i].table_id as u64));
            }
        }
    }
    assert forall|i: int| 0 <= i < b.indexes.len() implies can_be_built(
        after.catalog,
        #[trigger] b.indexes[i],
    ) by {
        lemma_still_built(db.catalog, s, b.indexes[i]);
    }
}

proof fn lemma_index_is_held(rs: Seq<Record>, db: Db, q: CreateIndexModel, fl: FloatModel)
    requires
        log_holds(rs, db, fl),
        index_target(db.catalog, q) is Ok,
    ensures
        ({
            let table_id = index_target(db.catalog, q)->Ok_0;
            let p = PendingModel::Index { table_id, column: q.column };
            let r = Record::CreateIndex { table_id, column: q.column };
            log_holds(rs.push(r), settled(db, p, fl).db, fl) && settled(db, p, fl).db.engine
                == db.engine
        }),
{
    let table_id = index_target(db.catalog, q)->Ok_0;
    let r = Record::CreateIndex { table_id, column: q.column };
    let b = rebuilt(nothing_rebuilt(), rs, rs.len() as int, fl);
    lemma_one_more(rs, r, fl);
    lemma_named(db.catalog, q.table, 0);
    let i = table_from(db.catalog, q.table, 0)->0;
    lemma_one_with_id(db.catalog, i);
    assert(can_be_built(db.catalog, (table_id, q.column)));
    let more = b.indexes.push((table_id, q.column));
    assert forall|k: int| 0 <= k < more.len() implies can_be_built(
        db.catalog,
        #[trigger] more[k],
    ) by {
        if k < b.indexes.len() {
            assert(more[k] == b.indexes[k]);
        }
    }
}

/// Every change is in the log. Where a log holds a database and a statement is run,
/// the log still holds it, with the record that the statement names where it
/// changes something; and where the change is cancelled, without it.
pub proof fn every_change_is_logged(rs: Seq<Record>, db: Db, s: StatementModel, fl: FloatModel)
    requires
        log_holds(rs, db, fl),
        in_time(db.engine),
        db.engine.clock < TS_INFINITY - 1,
    ensures
        ({
            let b = started(db, s, fl);
            match b.result {
                Ok(StepModel::Log(r, p)) => {
                    &&& log_holds(rs.push(r), settled(b.db, p, fl).db, fl)
                    &&& in_time(settled(b.db, p, fl).db.engine)
                    &&& log_holds(rs, cancelled(b.db, p), fl)
                    &&& in_time(cancelled(b.db, p).engine)
                },
                _ => log_holds(rs, b.db, fl) && in_time(b.db.engine),
            }
        }),
{
    let b = started(db, s, fl);
    let tx = db.engine.next_tx;
    match s {
        StatementModel::Insert(q) => {
            insertions_are_buffered(db, q, fl);
            lemma_change_is_held(rs, db, insert_staged(db, q, fl), q.table, fl);
            lemma_commit_is_held(rs, b.db, tx, fl);
            lemma_cancelled(rs, b.db, tx, fl);
        },
        StatementModel::Update(q) => {
            replacements_are_buffered(db, q, fl);
            lemma_change_is_held(rs, db, update_staged(db, q, fl), q.table, fl);
            lemma_commit_is_held(rs, b.db, tx, fl);
            lemma_cancelled(rs, b.db, tx, fl);
        },
        StatementModel::Delete(q) => {
            removals_are_buffered(db, q, fl);
            lemma_change_is_held(rs, db, delete_staged(db, q, fl), q.table, fl);
            lemma_commit_is_held(rs, b.db, tx, fl);
            lemma_cancelled(rs, b.db, tx, fl);
        },
        StatementModel::CreateTable(q) => {
            if let Ok(schema) = new_schema(db.catalog, q) {
                highest_id_bounds(db.catalog, db.catalog.len() as int);
                id_place(db.catalog, schema.table_id, 0);
                lemma_table_is_held(rs, db, schema, fl);
            }
        },
        StatementModel::CreateIndex(q) => {
            if index_target(db.catalog, q) is Ok {
                lemma_index_is_held(rs, db, q, fl);
            }
        },
        _ => {},
    }
}

proof fn lemma_cancelled(rs: Seq<Record>, db: Db, tx: u64, fl: FloatModel)
    requires
        log_holds(rs, db, fl),
        in_time(db.engine),
    ensures
        log_holds(rs, Db { engine: aborted(db.engine, tx), ..db }, fl),
        in_time(aborted(db.engine, tx)),
{
    assert(aborted(db.engine, tx).snapshots.dom() =~= db.engine.snapshots.dom().remove(tx));
}

proof fn lemma_indexes_built(db: Db, specs: Seq<(u64, Seq<char>)>, i: int)
    requires
        0 <= i,
        forall|k: int| 0 <= k < specs.len() ==> can_be_built(db.catalog, #[trigger] specs[k]),
    ensures
        match indexes_built(db, specs, i) {
            Ok(d) => d == (Db { indexes: d.indexes, ..db }),
            Err(_) => false,
        },
    decreases specs.len() - i,
{
    if i < specs.len() {
        assert(can_be_built(db.catalog, specs[i]));
        let m = built_index(db, specs[i].0, specs[i].1)->Ok_0;
        lemma_indexes_built(Db { indexes: with_index(db.indexes, m), ..db }, specs, i + 1);
    }
}

/// A restart loses nothing. A database is rebuilt from a log that holds it, with
/// the same tables, and each with the same rows, whether it is read whole or by its
/// primary key; and the log holds the rebuilt database.
pub proof fn a_restart_loses_nothing(rs: Seq<Record>, db: Db, fl: FloatModel)
    requires
        log_holds(rs, db, fl),
        db.engine.clock < TS_INFINITY,
    ensures
        match reopened(rs, fl) {
            Ok(d) => {
                &&& d.catalog == db.catalog
                &&& forall|name: Seq<char>| #[trigger] table_scan(d, name) == table_scan(db, name)
                &&& forall|s: SchemaModel, left: Seq<char>, op: Seq<char>, right: Seq<char>|
                    #[trigger]
                    key_rows(d, s, left, op, right, fl) == key_rows(db, s, left, op, right, fl)
                &&& log_holds(rs, d, fl)
                &&& in_time(d.engine)
            },
            Err(_) => false,
        },
{
    let b = rebuilt(nothing_rebuilt(), rs, rs.len() as int, fl);
    let start = Db {
        engine: Engine { tables: b.tables, clock: b.top, ..new_engine() },
        ..new_db(b.catalog)
    };
    lemma_indexes_built(start, b.indexes, 0);
    let d = reopened(rs, fl)->Ok_0;
    let ts = db.engine.clock;
    assert(d.engine == start.engine && d.catalog == b.catalog);
    lemma_agree_itself(db.engine.tables, b.tables, ts);
    assert forall|name: Seq<char>| #[trigger] table_scan(d, name) == table_scan(db, name) by {
        if let Some(s) = table_named(db.catalog, name) {
            agreeing_stores_hold_the_same_rows(
                db.engine.tables,
                b.tables,
                ts,
                s.table_id as u64,
                0,
            );
        }
    }
    assert forall|s: SchemaModel, left: Seq<char>, op: Seq<char>, right: Seq<char>| #[trigger]
        key_rows(d, s, left, op, right, fl) == key_rows(db, s, left, op, right, fl) by {
        let id = s.table_id as u64;
        if let Some((min, max)) = key_range(s, left, op, right, fl) {
            if db.engine.tables.dom().contains(id) {
                assert(tables_agree(db.engine.tables[id], b.tables[id], ts));
                let ids = ids_in_range(db.engine.tables[id].index, min, max, fl);
                let once = first_mentions(ids, ids.len() as int);
                lemma_stored_alike(db, d, id, once, 0);
            }
        }
    }
}

proof fn lemma_agree_itself(a: Map<u64, TableModel>, b: Map<u64, TableModel>, ts: u64)
    requires
        stores_agree(a, b, ts),
    ensures
        stores_agree(b, b, ts),
{
    assert forall|id: u64| #[trigger] b.dom().contains(id) implies tables_agree(
        b[id],
        b[id],
        ts,
    ) by {
        assert(a.dom().contains(id));
        assert(tables_agree(a[id], b[id], ts));
        assert forall|r: u64| #[trigger] b[id].rows.dom().contains(r) implies known_by(
            b[id].rows[r],
            ts,
        ) by {
            assert(a[id].rows.dom().contains(r));
        }
    }
}

proof fn lemma_stored_alike(a: Db, b: Db, table_id: u64, ids: Seq<u64>, i: int)
    requires
        a.engine.clock == b.engine.clock,
        a.engine.clock < TS_INFINITY,
        stores_agree(a.engine.tables, b.engine.tables, a.engine.clock),
        0 <= i,
    ensures
        stored_rows(a, table_id, ids, i) == stored_rows(b, table_id, ids, i),
    decreases ids.len() - i,
{
    if i < ids.len() {
        lemma_stored_alike(a, b, table_id, ids, i + 1);
        agreeing_stores_hold_the_same_rows(
            a.engine.tables,
            b.engine.tables,
            a.engine.clock,
            table_id,
            ids[i],
        );
    }
}

} // verus!
