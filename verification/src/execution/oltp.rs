//! Transactions over rows in versions.
//!
//! A transaction reads what had been committed when it began, and its own
//! writes. A write takes an exclusive lock on its row and is buffered; a commit
//! applies what was buffered at a new timestamp, and an abort discards it.
//! Reads take no locks.

use vstd::prelude::*;
use std::collections::{BTreeMap, HashMap};
use crate::error::DatabaseError;
use crate::execution::ids::{ascending_keys, lists};
use crate::execution::learned_retention::{
    counted_write, learned, no_retention, worth_a_sweep, Retention, RetentionPredictor,
};
use crate::execution::lock_manager::{acquired, released, LockKey, LockManager, LockMode, Locks};
use crate::execution::mvcc_store::{
    all_written, copy_bytes, earlier_snapshots_see_no_write, id_rows, optional_bytes, pruned_count,
    seen, stored_at, sweeping_is_safe, swept_store, target, the_last_write_is_read, with_table,
    writes, MVCCStore, TableModel, Write, WriteOp, TS_INFINITY,
};
use crate::execution::transaction::{
    next_number, started, Transaction, TransactionId, TransactionManager, TransactionState,
};
use crate::execution::wal::{Record, WalRecord};
use crate::float::{FloatModel, Floats};

verus! {

/// The engine.
pub struct OLTPEngine {
    pub transactions: TransactionManager,
    pub locks: LockManager,
    pub store: MVCCStore,
    pub retention: RetentionPredictor,
    /// The timestamp of the last commit.
    pub commit_clock: u64,
    /// What each open transaction has buffered.
    pub write_sets: HashMap<u64, Vec<WriteOp>>,
    /// The timestamp that each open transaction reads at.
    pub snapshots: BTreeMap<u64, u64>,
}

/// The engine as contracts speak of it.
#[verifier::ext_equal]
pub struct Engine {
    pub clock: u64,
    pub tables: Map<u64, TableModel>,
    pub buffered: Map<u64, Seq<Write>>,
    pub snapshots: Map<u64, u64>,
    pub locks: Locks,
    pub retention: Retention,
    pub next_tx: u64,
    pub transactions: Map<u64, Transaction>,
}

impl View for OLTPEngine {
    type V = Engine;

    open spec fn view(&self) -> Engine {
        Engine {
            clock: self.commit_clock,
            tables: self.store@,
            buffered: self.write_sets@.map_values(|v: Vec<WriteOp>| writes(v@)),
            snapshots: self.snapshots@,
            locks: self.locks@,
            retention: self.retention@,
            next_tx: self.transactions.next_tx_id,
            transactions: self.transactions.transactions@,
        }
    }
}

/// An engine in which nothing has happened yet.
pub open spec fn new_engine() -> Engine {
    Engine {
        clock: 0,
        tables: Map::empty(),
        buffered: Map::empty(),
        snapshots: Map::empty(),
        locks: Locks { entries: Map::empty(), held: Map::empty() },
        retention: no_retention(),
        next_tx: 1,
        transactions: Map::empty(),
    }
}

/// An engine after a transaction began.
pub open spec fn begun(e: Engine) -> Engine {
    let id = e.next_tx;
    Engine {
        buffered: e.buffered.insert(id, Seq::empty()),
        snapshots: e.snapshots.insert(id, e.clock),
        next_tx: next_number(id),
        transactions: e.transactions.insert(id, started(TransactionId(id), id)),
        ..e
    }
}

/// What a transaction has buffered.
pub open spec fn buffer_of(e: Engine, tx: u64) -> Seq<Write> {
    if e.buffered.dom().contains(tx) { e.buffered[tx] } else { Seq::empty() }
}

/// The timestamp that a transaction reads at.
pub open spec fn snapshot_of(e: Engine, tx: u64) -> u64 {
    if e.snapshots.dom().contains(tx) { e.snapshots[tx] } else { 0 }
}

/// The last of the first `n` writes that is for a row.
pub open spec fn last_write(ws: Seq<Write>, table_id: u64, row_id: u64, n: int) -> Option<Write>
    decreases n,
{
    if n <= 0 || n > ws.len() {
        None
    } else if target(ws[n - 1]) == (table_id, row_id) {
        Some(ws[n - 1])
    } else {
        last_write(ws, table_id, row_id, n - 1)
    }
}

/// The bytes that a write leaves in its row.
pub open spec fn left_by(w: Write) -> Option<Seq<u8>> {
    match w {
        Write::Insert { data, .. } => Some(data),
        Write::Update { data, .. } => Some(data),
        Write::Delete { .. } => None,
    }
}

/// What a transaction reads: its own last write to the row, or what its
/// snapshot sees.
pub open spec fn read_by(e: Engine, tx: u64, table_id: u64, row_id: u64) -> Option<Seq<u8>> {
    let ws = buffer_of(e, tx);
    match last_write(ws, table_id, row_id, ws.len() as int) {
        Some(w) => left_by(w),
        None => stored_at(e.tables, table_id, row_id, snapshot_of(e, tx)),
    }
}

/// An engine after a write was buffered.
pub open spec fn with_write(e: Engine, tx: u64, w: Write) -> Engine {
    Engine { buffered: e.buffered.insert(tx, buffer_of(e, tx).push(w)), ..e }
}

/// The oldest timestamp that an open transaction reads at, or the clock where
/// no transaction is open.
pub open spec fn is_oldest(snapshots: Map<u64, u64>, clock: u64, r: u64) -> bool {
    if exists|id: u64| snapshots.dom().contains(id) {
        &&& exists|id: u64| #[trigger] snapshots.dom().contains(id) && snapshots[id] == r
        &&& forall|id: u64| #[trigger] snapshots.dom().contains(id) ==> r <= snapshots[id]
    } else {
        r == clock
    }
}

/// The horizon: no open transaction reads before it.
pub open spec fn horizon(snapshots: Map<u64, u64>, clock: u64) -> u64 {
    choose|r: u64| is_oldest(snapshots, clock, r)
}

/// The tables and what is known of sweeps, after the rows of the first `n`
/// writes were counted and, where that is worth it, swept.
pub open spec fn after_sweeps(
    tables: Map<u64, TableModel>,
    p: Retention,
    ws: Seq<Write>,
    n: int,
    horizon: u64,
    fl: FloatModel,
) -> (Map<u64, TableModel>, Retention)
    decreases n,
{
    if n <= 0 {
        (tables, p)
    } else {
        let (t, q) = after_sweeps(tables, p, ws, n - 1, horizon, fl);
        let (table_id, row_id) = target(ws[n - 1]);
        let counted = counted_write(q, table_id, row_id);
        if worth_a_sweep(counted, table_id, row_id, fl) {
            (
                swept_store(t, table_id, row_id, horizon),
                learned(
                    counted,
                    table_id,
                    row_id,
                    pruned_count(t, table_id, row_id, horizon) as usize,
                    fl,
                ),
            )
        } else {
            (t, counted)
        }
    }
}

/// A transaction table after a transaction ended.
pub open spec fn ended(
    txs: Map<u64, Transaction>,
    tx: u64,
    state: TransactionState,
    next_tx: u64,
) -> Map<u64, Transaction> {
    if txs.dom().contains(tx) {
        txs.insert(
            tx,
            Transaction {
                state,
                end_timestamp: if state == TransactionState::Committed {
                    Some(next_tx)
                } else {
                    txs[tx].end_timestamp
                },
                ..txs[tx]
            },
        )
    } else {
        txs
    }
}

/// An engine after a transaction aborted.
pub open spec fn aborted(e: Engine, tx: u64) -> Engine {
    Engine {
        buffered: e.buffered.remove(tx),
        snapshots: e.snapshots.remove(tx),
        locks: released(e.locks, TransactionId(tx)),
        transactions: ended(e.transactions, tx, TransactionState::Aborted, e.next_tx),
        ..e
    }
}

/// An engine after a transaction committed.
pub open spec fn committed(e: Engine, tx: u64, fl: FloatModel) -> Engine {
    let ws = buffer_of(e, tx);
    let ts = (e.clock + 1) as u64;
    let snapshots = e.snapshots.remove(tx);
    let swept = after_sweeps(
        all_written(e.tables, ws, ws.len() as int, ts, fl),
        e.retention,
        ws,
        ws.len() as int,
        horizon(snapshots, ts),
        fl,
    );
    Engine {
        clock: ts,
        tables: swept.0,
        buffered: e.buffered.remove(tx),
        snapshots,
        locks: released(e.locks, TransactionId(tx)),
        retention: swept.1,
        next_tx: e.next_tx,
        transactions: ended(e.transactions, tx, TransactionState::Committed, e.next_tx),
    }
}

/// No open transaction reads ahead of the clock.
pub open spec fn snapshots_in_the_past(e: Engine) -> bool {
    forall|id: u64| #[trigger] e.snapshots.dom().contains(id) ==> e.snapshots[id] <= e.clock
}

proof fn lemma_oldest(snapshots: Map<u64, u64>, clock: u64, r: u64)
    requires
        is_oldest(snapshots, clock, r),
    ensures
        horizon(snapshots, clock) == r,
{
    let h = horizon(snapshots, clock);
    assert(is_oldest(snapshots, clock, h));
    if exists|id: u64| snapshots.dom().contains(id) {
        let a = choose|id: u64| #[trigger] snapshots.dom().contains(id) && snapshots[id] == r;
        let b = choose|id: u64| #[trigger] snapshots.dom().contains(id) && snapshots[id] == h;
        assert(h <= snapshots[a]);
        assert(r <= snapshots[b]);
    }
}

impl OLTPEngine {
    /// The locks and the tables are in order, and no open transaction reads
    /// ahead of the clock.
    pub open spec fn wf(&self) -> bool {
        &&& self.locks.wf()
        &&& self.store.wf()
        &&& snapshots_in_the_past(self@)
    }

    /// The clock can still advance.
    pub open spec fn has_time(&self) -> bool {
        self.commit_clock < TS_INFINITY - 1
    }

    /// An engine in which nothing has happened yet.
    pub fn new() -> (r: Self)
        ensures
            r.wf(),
            r@ == new_engine(),
    {
        broadcast use vstd::std_specs::hash::group_hash_axioms;

        let r = OLTPEngine {
            transactions: TransactionManager::new(),
            locks: LockManager::new(),
            store: MVCCStore::new(),
            retention: RetentionPredictor::new(),
            commit_clock: 0,
            write_sets: HashMap::new(),
            snapshots: BTreeMap::new(),
        };
        assert(r@.buffered =~= Map::<u64, Seq<Write>>::empty());
        assert(r@ =~= new_engine());
        r
    }

    /// Creates a table, where it is not there yet.
    pub fn create_table(&mut self, table_id: u64)
        requires
            old(self).wf(),
        ensures
            final(self).wf(),
            final(self)@ == (Engine {
                tables: with_table(old(self)@.tables, table_id),
                ..old(self)@
            }),
    {
        self.store.create_table(table_id);
    }

    /// Begins a transaction. It reads what has been committed by now.
    pub fn begin(&mut self) -> (r: TransactionId)
        requires
            old(self).wf(),
        ensures
            final(self).wf(),
            final(self)@ == begun(old(self)@),
            r.0 == old(self)@.next_tx,
    {
        broadcast use vstd::std_specs::hash::group_hash_axioms;
        broadcast use vstd::std_specs::btree::group_btree_axioms;
        broadcast use vstd::laws_cmp::group_laws_cmp;

        let tx_id = self.transactions.begin();
        self.snapshots.insert(tx_id.0, self.commit_clock);
        let ops: Vec<WriteOp> = Vec::new();
        assert(writes(ops@) =~= Seq::<Write>::empty());
        self.write_sets.insert(tx_id.0, ops);
        assert(self@ =~= begun(old(self)@)) by {
            assert(self@.buffered =~= begun(old(self)@).buffered);
        }
        tx_id
    }

    /// Runs `f` within a transaction that only reads, and ends it.
    pub fn with_read_snapshot<T, G: FnOnce(&OLTPEngine, TransactionId) -> T>(&mut self, f: G) -> (r:
        T)
        requires
            old(self).wf(),
            forall|e: &OLTPEngine, tx: TransactionId|
                e.wf() && e@ == begun(old(self)@) && tx.0 == old(self)@.next_tx
                    ==> #[trigger] f.requires((e, tx)),
        ensures
            final(self).wf(),
            final(self)@ == aborted(begun(old(self)@), old(self)@.next_tx),
            exists|e: &OLTPEngine|
                e@ == begun(old(self)@) && #[trigger] f.ensures(
                    (e, TransactionId(old(self)@.next_tx)),
                    r,
                ),
    {
        let tx_id = self.begin();
        let r = f(&*self, tx_id);
        self.abort(tx_id);
        r
    }

    fn snapshot(&self, tx_id: TransactionId) -> (r: u64)
        ensures
            r == snapshot_of(self@, tx_id.0),
    {
        broadcast use vstd::std_specs::btree::group_btree_axioms;
        broadcast use vstd::laws_cmp::group_laws_cmp;

        match self.snapshots.get(&tx_id.0) {
            Some(ts) => *ts,
            None => 0,
        }
    }

    fn drop_snapshot(&mut self, tx_id: TransactionId)
        ensures
            final(self).snapshots@ == old(self).snapshots@.remove(tx_id.0),
            final(self).store == old(self).store,
            final(self).locks == old(self).locks,
            final(self)@ == (Engine {
                snapshots: old(self)@.snapshots.remove(tx_id.0),
                ..old(self)@
            }),
    {
        broadcast use vstd::std_specs::btree::group_btree_axioms;
        broadcast use vstd::laws_cmp::group_laws_cmp;

        self.snapshots.remove(&tx_id.0);
        assert(self.snapshots@ =~= old(self).snapshots@.remove(tx_id.0));
    }

    /// The timestamp of an open transaction.
    fn snapshot_at(&self, id: u64) -> (r: u64)
        requires
            self.snapshots@.dom().contains(id),
        ensures
            r == self.snapshots@[id],
    {
        broadcast use vstd::std_specs::btree::group_btree_axioms;
        broadcast use vstd::laws_cmp::group_laws_cmp;

        *self.snapshots.get(&id).unwrap()
    }

    /// Every row of a table that a transaction's snapshot sees, by ascending
    /// id. A table that is not there has no rows.
    pub fn scan_table(&self, tx_id: TransactionId, table_id: u64) -> (r: Vec<(u64, Vec<u8>)>)
        requires
            self.wf(),
        ensures
            id_rows(r@) == rows_at(self@.tables, table_id, snapshot_of(self@, tx_id.0)),
    {
        let snap = self.snapshot(tx_id);
        self.scan_at(table_id, snap)
    }

    /// Every row of a table that has been committed by now, by ascending id.
    pub fn scan_committed(&self, table_id: u64) -> (r: Vec<(u64, Vec<u8>)>)
        requires
            self.wf(),
        ensures
            id_rows(r@) == rows_at(self@.tables, table_id, self@.clock),
    {
        self.scan_at(table_id, self.commit_clock)
    }

    fn scan_at(&self, table_id: u64, snap: u64) -> (r: Vec<(u64, Vec<u8>)>)
        requires
            self.wf(),
        ensures
            id_rows(r@) == rows_at(self@.tables, table_id, snap),
    {
        match self.store.get_table(table_id) {
            Some(table) => table.scan(snap),
            None => {
                let none: Vec<(u64, Vec<u8>)> = Vec::new();
                assert(id_rows(none@) =~= Seq::<(u64, Seq<u8>)>::empty());
                none
            },
        }
    }

    /// What has been committed of a row by now.
    pub fn read_committed(&self, table_id: u64, row_id: u64) -> (r: Option<Vec<u8>>)
        requires
            self.wf(),
        ensures
            optional_bytes(r) == stored_at(self@.tables, table_id, row_id, self@.clock),
    {
        match self.store.get_table(table_id) {
            Some(table) => table.read(row_id, self.commit_clock),
            None => None,
        }
    }

    /// The last write of a transaction to a row, as what it left there.
    fn own_write(&self, tx_id: TransactionId, table_id: u64, row_id: u64) -> (r: Option<
        Option<Vec<u8>>,
    >)
        ensures
            ({
                let ws = buffer_of(self@, tx_id.0);
                match last_write(ws, table_id, row_id, ws.len() as int) {
                    Some(w) => r matches Some(left) && optional_bytes(left) == left_by(w),
                    None => r is None,
                }
            }),
    {
        broadcast use vstd::std_specs::hash::group_hash_axioms;

        match self.write_sets.get(&tx_id.0) {
            Some(ops) => {
                let ghost ws = writes(ops@);
                assert(ws == buffer_of(self@, tx_id.0));
                let mut n: usize = ops.len();
                while n > 0
                    invariant
                        n <= ops@.len(),
                        ws == writes(ops@),
                        ws == buffer_of(self@, tx_id.0),
                        last_write(ws, table_id, row_id, ws.len() as int) == last_write(
                            ws,
                            table_id,
                            row_id,
                            n as int,
                        ),
                    decreases n,
                {
                    let op = &ops[n - 1];
                    assert(ws[n - 1] == op@);
                    let at = op.table_row();
                    if at.0 == table_id && at.1 == row_id {
                        return Some(
                            match op {
                                WriteOp::Insert { data, .. } => Some(
                                    copy_bytes(data),
                                ),
                                WriteOp::Update { data, .. } => Some(
                                    copy_bytes(data),
                                ),
                                WriteOp::Delete { .. } => None,
                            },
                        );
                    }
                    n = n - 1;
                }
                None
            },
            None => None,
        }
    }

    /// What a transaction reads of a row: its own last write, or what its
    /// snapshot sees.
    pub fn read(&self, tx_id: TransactionId, table_id: u64, row_id: u64) -> (r: Result<
        Option<Vec<u8>>,
        DatabaseError,
    >)
        requires
            self.wf(),
            self@.tables.dom().contains(table_id) || last_write(
                buffer_of(self@, tx_id.0),
                table_id,
                row_id,
                buffer_of(self@, tx_id.0).len() as int,
            ) is Some,
        ensures
            r matches Ok(v) && optional_bytes(v) == read_by(self@, tx_id.0, table_id, row_id),
    {
        match self.own_write(tx_id, table_id, row_id) {
            Some(left) => Ok(left),
            None => Ok(self.store.table(table_id).read(row_id, self.snapshot(tx_id))),
        }
    }

    /// Buffers a write under an exclusive lock on its row. Where the lock
    /// cannot be had, nothing is buffered.
    pub fn write(&mut self, tx_id: TransactionId, op: WriteOp) -> (r: Result<(), DatabaseError>)
        requires
            old(self).wf(),
        ensures
            final(self).wf(),
            ({
                let key = LockKey { table_id: target(op@).0, row_id: target(op@).1 };
                &&& acquired(
                    old(self)@.locks,
                    final(self)@.locks,
                    r,
                    tx_id,
                    key,
                    LockMode::Exclusive,
                )
                &&& final(self)@ == (Engine {
                    locks: final(self)@.locks,
                    buffered: if r is Ok {
                        with_write(old(self)@, tx_id.0, op@).buffered
                    } else {
                        old(self)@.buffered
                    },
                    ..old(self)@
                })
            }),
    {
        broadcast use vstd::std_specs::hash::group_hash_axioms;

        let at = op.table_row();
        match self.locks.acquire_exclusive(tx_id, LockKey::new(at.0, at.1)) {
            Err(e) => Err(e),
            Ok(_) => {
                let mut ops = match self.write_sets.remove(&tx_id.0) {
                    Some(v) => v,
                    None => Vec::new(),
                };
                assert(writes(ops@) =~= buffer_of(old(self)@, tx_id.0));
                let ghost before = ops@;
                ops.push(op);
                assert(writes(ops@) =~= writes(before).push(op@));
                self.write_sets.insert(tx_id.0, ops);
                assert(self@.buffered =~= with_write(old(self)@, tx_id.0, op@).buffered);
                Ok(())
            },
        }
    }

    /// The record that makes a commit durable: what is to be logged before the
    /// transaction commits.
    pub fn commit_record(&self, tx_id: TransactionId) -> (r: WalRecord)
        requires
            self.has_time(),
        ensures
            r@ == (Record::Commit {
                commit_ts: (self@.clock + 1) as u64,
                ops: buffer_of(self@, tx_id.0),
            }),
    {
        broadcast use vstd::std_specs::hash::group_hash_axioms;

        let mut out: Vec<WriteOp> = Vec::new();
        match self.write_sets.get(&tx_id.0) {
            Some(ops) => {
                let mut i: usize = 0;
                while i < ops.len()
                    invariant
                        i <= ops@.len(),
                        writes(out@) == writes(ops@).take(i as int),
                    decreases ops@.len() - i,
                {
                    let ghost before = out@;
                    out.push(ops[i].copy());
                    assert(writes(out@) =~= writes(before).push(ops@[i as int]@));
                    assert(writes(out@) =~= writes(ops@).take(i + 1));
                    i = i + 1;
                }
                assert(writes(out@) =~= writes(ops@));
            },
            None => {},
        }
        assert(writes(out@) =~= buffer_of(self@, tx_id.0));
        WalRecord::Commit { commit_ts: self.commit_clock + 1, ops: out }
    }

    /// Commits a transaction: applies what it buffered at a new timestamp,
    /// releases its locks, and sweeps the rows that are worth it.
    pub fn commit<F: Floats>(&mut self, tx_id: TransactionId, floats: &F) -> (r: Result<
        (),
        DatabaseError,
    >)
        requires
            floats.sound(),
            old(self).wf(),
            old(self).has_time(),
        ensures
            r is Ok,
            final(self).wf(),
            final(self)@ == committed(old(self)@, tx_id.0, floats.model()),
    {
        broadcast use vstd::std_specs::hash::group_hash_axioms;

        let ghost e = self@;
        let ghost fl = floats.model();
        let ops = match self.write_sets.remove(&tx_id.0) {
            Some(v) => v,
            None => Vec::new(),
        };
        let ghost ws = writes(ops@);
        assert(ws =~= buffer_of(e, tx_id.0));
        assert(self@.buffered =~= e.buffered.remove(tx_id.0));
        let commit_ts: u64 = self.commit_clock + 1;
        self.commit_clock = commit_ts;
        self.store.apply_write_set(ops.as_slice(), commit_ts, floats);
        self.transactions.commit(tx_id);
        self.locks.release_all(tx_id);
        self.drop_snapshot(tx_id);
        assert(snapshots_in_the_past(self@));
        let horizon = self.min_active_snapshot();
        let ghost start = self@;
        let mut i: usize = 0;
        while i < ops.len()
            invariant
                i <= ops@.len(),
                floats.sound(),
                fl == floats.model(),
                ws == writes(ops@),
                self.wf(),
                self@ == (Engine {
                    tables: after_sweeps(
                        start.tables,
                        start.retention,
                        ws,
                        i as int,
                        horizon,
                        fl,
                    ).0,
                    retention: after_sweeps(
                        start.tables,
                        start.retention,
                        ws,
                        i as int,
                        horizon,
                        fl,
                    ).1,
                    ..start
                }),
            decreases ops@.len() - i,
        {
            let ghost before = self@;
            let at = ops[i].table_row();
            assert(ws[i as int] == ops@[i as int]@);
            self.retention.record_write(at.0, at.1);
            if self.retention.should_prune(at.0, at.1, floats) {
                let removed = self.store.prune_row(at.0, at.1, horizon);
                self.retention.record_prune_result(at.0, at.1, removed, floats);
            }
            assert(self@.snapshots == before.snapshots && self@.clock == before.clock);
            i = i + 1;
        }
        assert(self@ =~= committed(e, tx_id.0, fl));
        Ok(())
    }

    /// Aborts a transaction: discards what it buffered and releases its locks.
    pub fn abort(&mut self, tx_id: TransactionId)
        requires
            old(self).wf(),
        ensures
            final(self).wf(),
            final(self)@ == aborted(old(self)@, tx_id.0),
    {
        broadcast use vstd::std_specs::hash::group_hash_axioms;

        self.write_sets.remove(&tx_id.0);
        assert(self@.buffered =~= old(self)@.buffered.remove(tx_id.0));
        self.transactions.abort(tx_id);
        self.locks.release_all(tx_id);
        self.drop_snapshot(tx_id);
        assert(self@ =~= aborted(old(self)@, tx_id.0));
    }

    /// The oldest timestamp that an open transaction reads at, or the clock
    /// where no transaction is open.
    fn min_active_snapshot(&self) -> (r: u64)
        ensures
            r == horizon(self@.snapshots, self@.clock),
    {
        let ids = ascending_keys(&self.snapshots);
        let ghost m = self.snapshots@;
        let mut best: u64 = self.commit_clock;
        let mut i: usize = 0;
        while i < ids.len()
            invariant
                i <= ids@.len(),
                m == self.snapshots@,
                lists(ids@, m.dom()),
                i == 0 ==> best == self.commit_clock,
                i > 0 ==> exists|k: int| 0 <= k < i && m[#[trigger] ids@[k]] == best,
                forall|k: int| 0 <= k < i ==> best <= m[#[trigger] ids@[k]],
            decreases ids@.len() - i,
        {
            assert(ids@.contains(ids@[i as int]));
            let ts: u64 = self.snapshot_at(ids[i]);
            if i == 0 || ts < best {
                best = ts;
            }
            i = i + 1;
        }
        proof {
            if exists|id: u64| m.dom().contains(id) {
                let id = choose|id: u64| m.dom().contains(id);
                assert(ids@.contains(id));
                assert(ids@.len() > 0);
                let k = choose|k: int| 0 <= k < ids@.len() && m[#[trigger] ids@[k]] == best;
                assert(ids@.contains(ids@[k]));
                assert(m.dom().contains(ids@[k]) && m[ids@[k]] == best);
                assert forall|id: u64| #[trigger] m.dom().contains(id) implies best <= m[id] by {
                    assert(ids@.contains(id));
                    let j = choose|j: int| 0 <= j < ids@.len() && ids@[j] == id;
                    assert(best <= m[ids@[j]]);
                }
            } else {
                if ids@.len() > 0 {
                    assert(ids@.contains(ids@[0]));
                }
            }
            assert(is_oldest(m, self.commit_clock, best));
            lemma_oldest(m, self.commit_clock, best);
        }
        best
    }

    /// The timestamp of the last commit.
    pub fn current_commit_ts(&self) -> (r: u64)
        ensures
            r == self@.clock,
    {
        self.commit_clock
    }

    /// Advances the clock to a timestamp, so that none up to it is given again.
    pub fn restore_commit_clock(&mut self, ts: u64)
        requires
            old(self).wf(),
        ensures
            final(self).wf(),
            final(self)@ == (Engine {
                clock: if ts > old(self)@.clock {
                    ts
                } else {
                    old(self)@.clock
                },
                ..old(self)@
            }),
    {
        if ts > self.commit_clock {
            self.commit_clock = ts;
        }
    }
}

impl Default for OLTPEngine {
    fn default() -> (r: Self)
        ensures
            r.wf(),
            r@ == new_engine(),
    {
        OLTPEngine::new()
    }
}

/// The rows of a table that a snapshot sees, by ascending id.
pub open spec fn rows_at(tables: Map<u64, TableModel>, table_id: u64, snap: u64) -> Seq<
    (u64, Seq<u8>),
> {
    if tables.dom().contains(table_id) { seen(tables[table_id], snap) } else { Seq::empty() }
}

// ---- what transactions keep ------------------------------------------------------------

/// A transaction reads its own last write to a row.
pub proof fn own_writes_are_read(e: Engine, tx: u64, w: Write)
    ensures
        read_by(with_write(e, tx, w), tx, target(w).0, target(w).1) == left_by(w),
{
    let ws = buffer_of(with_write(e, tx, w), tx);
    assert(ws == buffer_of(e, tx).push(w));
    assert(ws[ws.len() - 1] == w);
}

/// Nobody else reads what a transaction has buffered.
pub proof fn buffered_writes_are_hidden(
    e: Engine,
    tx: u64,
    w: Write,
    other: u64,
    table_id: u64,
    row_id: u64,
)
    requires
        other != tx,
    ensures
        read_by(with_write(e, tx, w), other, table_id, row_id) == read_by(
            e,
            other,
            table_id,
            row_id,
        ),
{
    assert(buffer_of(with_write(e, tx, w), other) == buffer_of(e, other));
}

pub(crate) proof fn lemma_sweeps_are_safe(
    tables: Map<u64, TableModel>,
    p: Retention,
    ws: Seq<Write>,
    n: int,
    horizon: u64,
    fl: FloatModel,
    table_id: u64,
    row_id: u64,
    snap: u64,
)
    requires
        snap >= horizon,
    ensures
        stored_at(after_sweeps(tables, p, ws, n, horizon, fl).0, table_id, row_id, snap)
            == stored_at(tables, table_id, row_id, snap),
        after_sweeps(tables, p, ws, n, horizon, fl).0.dom() == tables.dom(),
    decreases n,
{
    if n > 0 {
        lemma_sweeps_are_safe(tables, p, ws, n - 1, horizon, fl, table_id, row_id, snap);
        let t = after_sweeps(tables, p, ws, n - 1, horizon, fl).0;
        let at = target(ws[n - 1]);
        sweeping_is_safe(t, at.0, at.1, horizon, table_id, row_id, snap);
        assert(after_sweeps(tables, p, ws, n, horizon, fl).0.dom() =~= tables.dom());
    }
}

pub(crate) proof fn lemma_horizon(snapshots: Map<u64, u64>, clock: u64, id: u64)
    requires
        forall|i: u64| #[trigger] snapshots.dom().contains(i) ==> snapshots[i] <= clock,
        snapshots.dom().finite(),
    ensures
        horizon(snapshots, clock) <= clock,
        snapshots.dom().contains(id) ==> horizon(snapshots, clock) <= snapshots[id],
{
    if exists|i: u64| snapshots.dom().contains(i) {
        let r = lemma_least(snapshots, snapshots.dom());
        assert(is_oldest(snapshots, clock, r));
        lemma_oldest(snapshots, clock, r);
    } else {
        assert(is_oldest(snapshots, clock, clock));
        lemma_oldest(snapshots, clock, clock);
    }
}

proof fn lemma_least(snapshots: Map<u64, u64>, ids: Set<u64>) -> (r: u64)
    requires
        ids.finite(),
        exists|i: u64| ids.contains(i),
    ensures
        exists|id: u64| #[trigger] ids.contains(id) && snapshots[id] == r,
        forall|id: u64| #[trigger] ids.contains(id) ==> r <= snapshots[id],
    decreases ids.len(),
{
    let a = choose|i: u64| ids.contains(i);
    let rest = ids.remove(a);
    if exists|i: u64| rest.contains(i) {
        let r = lemma_least(snapshots, rest);
        if snapshots[a] < r {
            assert forall|id: u64| #[trigger] ids.contains(id) implies snapshots[a]
                <= snapshots[id] by {
                if id != a {
                    assert(rest.contains(id));
                }
            }
            snapshots[a]
        } else {
            let b = choose|id: u64| #[trigger] rest.contains(id) && snapshots[id] == r;
            assert(ids.contains(b));
            assert forall|id: u64| #[trigger] ids.contains(id) implies r <= snapshots[id] by {
                if id != a {
                    assert(rest.contains(id));
                }
            }
            r
        }
    } else {
        assert forall|id: u64| #[trigger] ids.contains(id) implies snapshots[a] <= snapshots[id] by {
            if id != a {
                assert(rest.contains(id));
            }
        }
        snapshots[a]
    }
}

/// An open transaction reads the same before and after another commits,
/// whatever that wrote and whatever was swept.
pub proof fn snapshots_are_isolated(
    e: Engine,
    tx: u64,
    other: u64,
    fl: FloatModel,
    table_id: u64,
    row_id: u64,
)
    requires
        e.clock < TS_INFINITY - 1,
        snapshots_in_the_past(e),
        e.snapshots.dom().finite(),
        e.snapshots.dom().contains(other),
        other != tx,
    ensures
        read_by(committed(e, tx, fl), other, table_id, row_id) == read_by(
            e,
            other,
            table_id,
            row_id,
        ),
{
    let ws = buffer_of(e, tx);
    let ts = (e.clock + 1) as u64;
    let snapshots = e.snapshots.remove(tx);
    let h = horizon(snapshots, ts);
    let snap = e.snapshots[other];
    lemma_horizon(snapshots, ts, other);
    assert(h <= snap);
    earlier_snapshots_see_no_write(
        e.tables,
        ws,
        ws.len() as int,
        ts,
        fl,
        table_id,
        row_id,
        snap,
    );
    lemma_sweeps_are_safe(
        all_written(e.tables, ws, ws.len() as int, ts, fl),
        e.retention,
        ws,
        ws.len() as int,
        h,
        fl,
        table_id,
        row_id,
        snap,
    );
    assert(buffer_of(committed(e, tx, fl), other) == buffer_of(e, other));
}

/// A transaction that begins after a commit reads what the commit wrote: the
/// bytes of the last write to each row.
pub proof fn commits_are_seen_by_later_transactions(
    e: Engine,
    tx: u64,
    fl: FloatModel,
    k: int,
)
    requires
        e.clock < TS_INFINITY - 1,
        snapshots_in_the_past(e),
        e.snapshots.dom().finite(),
        0 <= k < buffer_of(e, tx).len(),
        !(buffer_of(e, tx)[k] is Delete),
        e.tables.dom().contains(target(buffer_of(e, tx)[k]).0),
        forall|i: int|
            k < i < buffer_of(e, tx).len() ==> target(#[trigger] buffer_of(e, tx)[i]) != target(
                buffer_of(e, tx)[k],
            ),
    ensures
        ({
            let later = begun(committed(e, tx, fl));
            let w = buffer_of(e, tx)[k];
            read_by(later, e.next_tx, target(w).0, target(w).1) == left_by(w)
        }),
{
    let ws = buffer_of(e, tx);
    let w = ws[k];
    let ts = (e.clock + 1) as u64;
    let snapshots = e.snapshots.remove(tx);
    let h = horizon(snapshots, ts);
    lemma_horizon(snapshots, ts, e.next_tx);
    the_last_write_is_read(e.tables, ws, k, ts, fl, ts);
    lemma_sweeps_are_safe(
        all_written(e.tables, ws, ws.len() as int, ts, fl),
        e.retention,
        ws,
        ws.len() as int,
        h,
        fl,
        target(w).0,
        target(w).1,
        ts,
    );
    let later = begun(committed(e, tx, fl));
    assert(buffer_of(later, e.next_tx) == Seq::<Write>::empty());
}

/// An abort leaves every table as it was.
pub proof fn aborts_leave_no_trace(e: Engine, tx: u64, w: Write)
    ensures
        aborted(with_write(e, tx, w), tx).tables == e.tables,
        aborted(with_write(e, tx, w), tx).clock == e.clock,
        buffer_of(aborted(with_write(e, tx, w), tx), tx) == Seq::<Write>::empty(),
{
}

} // verus!
