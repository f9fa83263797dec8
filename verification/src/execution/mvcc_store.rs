//! Rows in versions.
//!
//! Each row has a chain of versions, newest first. A version lives from the
//! timestamp at which it was committed up to the one at which it was replaced
//! or deleted, and a snapshot sees the version that was alive at its timestamp.
//! The store holds only what was committed.

use vstd::prelude::*;
use std::collections::BTreeMap;
use crate::compute::simd_ops::sorted_floats;
use crate::execution::ids::{ascending_keys, in_order};
use crate::float::{not_a_number, FloatModel, FloatOp, Floats, F64};
use crate::index::dynamic_pgm::{
    all_below, fresh_index, keys_in_range, with_key, BufferedIndex, DynamicPGMIndex,
};
use crate::index::memory::{buffered_bytes, index_bytes};

verus! {

/// The end of a version that is alive.
pub const TS_INFINITY: u64 = u64::MAX;

/// How far off a predicted place in the row-id index may be.
pub const PK_INDEX_ERROR_BOUND: usize = 8;

/// How many ids the row-id index buffers at first.
pub const PK_INDEX_BUFFER_CAPACITY: usize = 64;

/// One version of a row.
#[derive(Debug)]
pub struct RowVersion {
    /// The bytes of the row.
    pub data: Vec<u8>,
    /// When the version was committed.
    pub begin_ts: u64,
    /// When it was replaced or deleted.
    pub end_ts: u64,
}

/// A version as contracts speak of it.
pub struct Version {
    pub data: Seq<u8>,
    pub begin_ts: u64,
    pub end_ts: u64,
}

impl View for RowVersion {
    type V = Version;

    open spec fn view(&self) -> Version {
        Version { data: self.data@, begin_ts: self.begin_ts, end_ts: self.end_ts }
    }
}

/// Whether a snapshot sees a version.
pub open spec fn visible(v: Version, snap: u64) -> bool {
    v.begin_ts <= snap < v.end_ts
}

impl RowVersion {
    /// Whether a snapshot taken at `snap_ts` sees this version.
    pub fn visible_at(&self, snap_ts: u64) -> (r: bool)
        ensures
            r == visible(self@, snap_ts),
    {
        self.begin_ts <= snap_ts && snap_ts < self.end_ts
    }
}

/// A copy of some bytes.
pub fn copy_bytes(v: &Vec<u8>) -> (r: Vec<u8>)
    ensures
        r@ == v@,
{
    let r = v.clone();
    assert(r@ =~= v@);
    r
}

// ---- chains --------------------------------------------------------------------------

/// The versions of one row, newest first.
#[derive(Debug)]
pub struct VersionChain {
    pub versions: Vec<RowVersion>,
}

impl View for VersionChain {
    type V = Seq<Version>;

    open spec fn view(&self) -> Seq<Version> {
        self.versions@.map_values(|v: RowVersion| v@)
    }
}

/// What a snapshot reads: the newest version that it sees.
pub open spec fn read_at(chain: Seq<Version>, snap: u64) -> Option<Seq<u8>>
    decreases chain.len(),
{
    if chain.len() == 0 {
        None
    } else if visible(chain[0], snap) {
        Some(chain[0].data)
    } else {
        read_at(chain.drop_first(), snap)
    }
}

/// A chain with one more version, which is alive.
pub open spec fn pushed(chain: Seq<Version>, ts: u64, data: Seq<u8>) -> Seq<Version> {
    seq![Version { data, begin_ts: ts, end_ts: TS_INFINITY }] + chain
}

/// A version that ends at `ts` where it is alive.
pub open spec fn ended(v: Version, ts: u64) -> Version {
    if v.end_ts == TS_INFINITY {
        Version { end_ts: ts, ..v }
    } else {
        v
    }
}

/// A chain whose living versions end at `ts`.
pub open spec fn expired(chain: Seq<Version>, ts: u64) -> Seq<Version> {
    chain.map_values(|v: Version| ended(v, ts))
}

/// A chain without the versions that ended at `horizon` or before.
pub open spec fn pruned(chain: Seq<Version>, horizon: u64) -> Seq<Version>
    decreases chain.len(),
{
    if chain.len() == 0 {
        chain
    } else if chain[0].end_ts > horizon {
        seq![chain[0]] + pruned(chain.drop_first(), horizon)
    } else {
        pruned(chain.drop_first(), horizon)
    }
}

/// The bytes that an optional vector holds.
pub open spec fn optional_bytes(v: Option<Vec<u8>>) -> Option<Seq<u8>> {
    match v {
        Some(b) => Some(b@),
        None => None,
    }
}

impl VersionChain {
    /// A chain without versions.
    pub fn new() -> (r: Self)
        ensures
            r@ == Seq::<Version>::empty(),
    {
        let r = VersionChain { versions: Vec::new() };
        assert(r@ =~= Seq::<Version>::empty());
        r
    }

    /// What a snapshot reads.
    pub fn read(&self, snap_ts: u64) -> (r: Option<Vec<u8>>)
        ensures
            optional_bytes(r) == read_at(self@, snap_ts),
    {
        let mut i: usize = 0;
        assert(self@.skip(0) == self@);
        while i < self.versions.len()
            invariant
                i <= self.versions@.len(),
                read_at(self@, snap_ts) == read_at(self@.skip(i as int), snap_ts),
            decreases self.versions@.len() - i,
        {
            assert(self@.skip(i as int)[0] == self.versions@[i as int]@);
            assert(self@.skip(i as int).drop_first() == self@.skip(i + 1));
            if self.versions[i].visible_at(snap_ts) {
                return Some(copy_bytes(&self.versions[i].data));
            }
            i = i + 1;
        }
        None
    }

    /// Adds a version that is alive.
    pub fn push_version(&mut self, begin_ts: u64, data: Vec<u8>)
        ensures
            final(self)@ == pushed(old(self)@, begin_ts, data@),
    {
        let v = RowVersion { data, begin_ts, end_ts: TS_INFINITY };
        self.versions.insert(0, v);
        assert(self@ =~= pushed(old(self)@, begin_ts, data@));
    }

    /// Ends every version that is alive.
    pub fn expire_live(&mut self, end_ts: u64)
        ensures
            final(self)@ == expired(old(self)@, end_ts),
    {
        let ghost before = self@;
        let mut i: usize = 0;
        while i < self.versions.len()
            invariant
                i <= self.versions@.len(),
                self@.len() == before.len(),
                forall|k: int| 0 <= k < i ==> #[trigger] self@[k] == ended(before[k], end_ts),
                forall|k: int| i <= k < before.len() ==> #[trigger] self@[k] == before[k],
            decreases self.versions@.len() - i,
        {
            let ghost now = self@;
            assert(now[i as int] == self.versions@[i as int]@);
            if self.versions[i].end_ts == TS_INFINITY {
                let old_version = self.versions.remove(i);
                let v = RowVersion {
                    data: old_version.data,
                    begin_ts: old_version.begin_ts,
                    end_ts,
                };
                self.versions.insert(i, v);
                assert(self@ =~= now.update(i as int, v@));
            }
            i = i + 1;
        }
        assert(self@ =~= expired(before, end_ts));
    }

    /// Drops the versions that ended at `horizon` or before. The number of
    /// dropped versions comes back. A snapshot at the horizon or behind it reads what it
    /// read.
    pub fn prune(&mut self, horizon: u64) -> (r: usize)
        ensures
            final(self)@ == pruned(old(self)@, horizon),
            final(self)@ == old(self)@.filter(|v: Version| v.end_ts > horizon),
            r == old(self)@.len() - final(self)@.len(),
            forall|snap: u64|
                snap >= horizon ==> #[trigger] read_at(final(self)@, snap) == read_at(
                    old(self)@,
                    snap,
                ),
    {
        let ghost before = self@;
        let n: usize = self.versions.len();
        let mut i: usize = 0;
        let mut dropped: usize = 0;
        assert(before.skip(0) == before);
        assert(self@.take(0) + pruned(before, horizon) =~= pruned(before, horizon));
        while i < self.versions.len()
            invariant
                i + dropped <= n,
                n == before.len(),
                self.versions@.len() == n - dropped,
                self@.skip(i as int) == before.skip(i + dropped),
                pruned(before, horizon) == self@.take(i as int) + pruned(
                    before.skip(i + dropped),
                    horizon,
                ),
            decreases self.versions@.len() - i,
        {
            let ghost now = self@;
            let ghost rest = before.skip(i + dropped);
            assert(now.len() == self.versions@.len());
            assert(rest[0] == now.skip(i as int)[0]);
            assert(now[i as int] == self.versions@[i as int]@);
            assert(rest.drop_first() == before.skip(i + dropped + 1));
            if self.versions[i].end_ts > horizon {
                assert(now.take(i as int) + pruned(rest, horizon) =~= now.take(i + 1) + pruned(
                    rest.drop_first(),
                    horizon,
                ));
                assert(now.skip(i + 1) =~= rest.drop_first());
                i = i + 1;
            } else {
                self.versions.remove(i);
                assert(self@ =~= now.remove(i as int));
                assert(self@.take(i as int) =~= now.take(i as int));
                assert(self@.skip(i as int) =~= rest.drop_first());
                dropped = dropped + 1;
            }
        }
        assert(before.skip(i + dropped) =~= self@.skip(i as int));
        assert(self@.skip(i as int) =~= Seq::<Version>::empty());
        assert(pruned(before, horizon) =~= self@);
        proof {
            pruning_keeps_what_ends_later(before, horizon);
            assert forall|snap: u64| snap >= horizon implies #[trigger] read_at(self@, snap)
                == read_at(before, snap) by {
                pruning_is_safe(before, horizon, snap);
            }
        }
        dropped
    }
}

// ---- what a chain keeps --------------------------------------------------------------

/// Pruning keeps the versions that end behind the horizon, and their order.
pub proof fn pruning_keeps_what_ends_later(chain: Seq<Version>, horizon: u64)
    ensures
        pruned(chain, horizon) == chain.filter(|v: Version| v.end_ts > horizon),
    decreases chain.len(),
{
    let keeps = |v: Version| v.end_ts > horizon;
    reveal_with_fuel(Seq::filter, 2);
    if chain.len() > 0 {
        let rest = chain.drop_first();
        let one = seq![chain[0]];
        pruning_keeps_what_ends_later(rest, horizon);
        assert(chain =~= one + rest);
        Seq::filter_distributes_over_add(one, rest, keeps);
        assert(one.drop_last() =~= Seq::<Version>::empty());
        if keeps(chain[0]) {
            assert(one.filter(keeps) =~= one);
        } else {
            assert(one.filter(keeps) =~= Seq::<Version>::empty());
            assert(one.filter(keeps) + rest.filter(keeps) =~= rest.filter(keeps));
        }
    } else {
        assert(chain.filter(keeps) =~= Seq::<Version>::empty());
        assert(pruned(chain, horizon) =~= Seq::<Version>::empty());
    }
}

/// Pruning takes nothing from a snapshot at the horizon or behind it.
pub proof fn pruning_is_safe(chain: Seq<Version>, horizon: u64, snap: u64)
    requires
        snap >= horizon,
    ensures
        read_at(pruned(chain, horizon), snap) == read_at(chain, snap),
    decreases chain.len(),
{
    if chain.len() > 0 {
        pruning_is_safe(chain.drop_first(), horizon, snap);
        if chain[0].end_ts > horizon {
            let p = seq![chain[0]] + pruned(chain.drop_first(), horizon);
            assert(p.drop_first() == pruned(chain.drop_first(), horizon));
        }
    }
}

/// What is pushed or expired at `ts` changes nothing for an earlier snapshot.
pub proof fn earlier_snapshots_see_no_change(
    chain: Seq<Version>,
    ts: u64,
    data: Seq<u8>,
    snap: u64,
)
    requires
        snap < ts,
    ensures
        read_at(pushed(chain, ts, data), snap) == read_at(chain, snap),
        read_at(expired(chain, ts), snap) == read_at(chain, snap),
    decreases chain.len(),
{
    assert(pushed(chain, ts, data).drop_first() == chain);
    if chain.len() > 0 {
        earlier_snapshots_see_no_change(chain.drop_first(), ts, data, snap);
        assert(expired(chain, ts).drop_first() =~= expired(chain.drop_first(), ts));
    }
}

/// A version that was pushed at `ts` is what a snapshot at `ts` or later reads,
/// until something is pushed or expired again.
pub proof fn later_snapshots_see_the_push(chain: Seq<Version>, ts: u64, data: Seq<u8>, snap: u64)
    requires
        ts <= snap < TS_INFINITY,
    ensures
        read_at(pushed(chain, ts, data), snap) == Some(data),
{
}

/// Every version is alive, or has ended at `ts` or before.
pub open spec fn ended_by(chain: Seq<Version>, ts: u64) -> bool {
    forall|i: int|
        0 <= i < chain.len() ==> (#[trigger] chain[i]).end_ts == TS_INFINITY || chain[i].end_ts
            <= ts
}

/// Every version has ended at `ts` or before.
pub open spec fn all_ended(chain: Seq<Version>, ts: u64) -> bool {
    forall|i: int| 0 <= i < chain.len() ==> (#[trigger] chain[i]).end_ts <= ts
}

/// A chain whose living versions expired at `ts` has nothing for a snapshot at `ts` or
/// later.
pub proof fn later_snapshots_see_no_expired_row(chain: Seq<Version>, ts: u64, snap: u64)
    requires
        ended_by(chain, ts),
        ts <= snap,
    ensures
        read_at(expired(chain, ts), snap) is None,
        all_ended(expired(chain, ts), ts),
{
    let e = expired(chain, ts);
    assert forall|i: int| 0 <= i < e.len() implies (#[trigger] e[i]).end_ts <= ts by {
        assert(e[i] == ended(chain[i], ts));
    }
    nothing_after_the_end(e, ts, snap);
}

proof fn nothing_after_the_end(chain: Seq<Version>, ts: u64, snap: u64)
    requires
        all_ended(chain, ts),
        ts <= snap,
    ensures
        read_at(chain, snap) is None,
    decreases chain.len(),
{
    if chain.len() > 0 {
        let rest = chain.drop_first();
        assert forall|i: int| 0 <= i < rest.len() implies (#[trigger] rest[i]).end_ts <= ts by {
            assert(rest[i] == chain[i + 1]);
        }
        nothing_after_the_end(rest, ts, snap);
    }
}

// ---- buffered writes -----------------------------------------------------------------

/// A write that a transaction has buffered.
#[derive(Debug)]
pub enum WriteOp {
    Insert { table_id: u64, row_id: u64, data: Vec<u8> },
    Update { table_id: u64, row_id: u64, data: Vec<u8> },
    Delete { table_id: u64, row_id: u64 },
}

/// A write as contracts speak of it.
pub enum Write {
    Insert { table_id: u64, row_id: u64, data: Seq<u8> },
    Update { table_id: u64, row_id: u64, data: Seq<u8> },
    Delete { table_id: u64, row_id: u64 },
}

impl View for WriteOp {
    type V = Write;

    open spec fn view(&self) -> Write {
        match *self {
            WriteOp::Insert { table_id, row_id, data } => Write::Insert {
                table_id,
                row_id,
                data: data@,
            },
            WriteOp::Update { table_id, row_id, data } => Write::Update {
                table_id,
                row_id,
                data: data@,
            },
            WriteOp::Delete { table_id, row_id } => Write::Delete { table_id, row_id },
        }
    }
}

/// The table and the row that a write is for.
pub open spec fn target(w: Write) -> (u64, u64) {
    match w {
        Write::Insert { table_id, row_id, .. } => (table_id, row_id),
        Write::Update { table_id, row_id, .. } => (table_id, row_id),
        Write::Delete { table_id, row_id } => (table_id, row_id),
    }
}

/// The writes that some buffered writes stand for.
pub open spec fn writes(ops: Seq<WriteOp>) -> Seq<Write> {
    ops.map_values(|op: WriteOp| op@)
}

impl WriteOp {
    /// The table and the row that the write is for.
    pub fn table_row(&self) -> (r: (u64, u64))
        ensures
            r == target(self@),
    {
        match self {
            WriteOp::Insert { table_id, row_id, .. } => (*table_id, *row_id),
            WriteOp::Update { table_id, row_id, .. } => (*table_id, *row_id),
            WriteOp::Delete { table_id, row_id } => (*table_id, *row_id),
        }
    }

    /// A copy of the write.
    pub fn copy(&self) -> (r: Self)
        ensures
            r@ == self@,
    {
        match self {
            WriteOp::Insert { table_id, row_id, data } => WriteOp::Insert {
                table_id: *table_id,
                row_id: *row_id,
                data: copy_bytes(data),
            },
            WriteOp::Update { table_id, row_id, data } => WriteOp::Update {
                table_id: *table_id,
                row_id: *row_id,
                data: copy_bytes(data),
            },
            WriteOp::Delete { table_id, row_id } => WriteOp::Delete {
                table_id: *table_id,
                row_id: *row_id,
            },
        }
    }
}

// ---- tables --------------------------------------------------------------------------

/// One table: a chain for each row id, and a learned index over the ids of the
/// rows that were inserted. The index only grows; what it yields are candidates
/// that are to be looked up.
pub struct MVCCTable {
    pub rows: BTreeMap<u64, VersionChain>,
    pub pk_index: Option<DynamicPGMIndex>,
}

/// A table as contracts speak of it.
pub struct TableModel {
    pub rows: Map<u64, Seq<Version>>,
    pub index: Option<BufferedIndex>,
}

/// The chains of a table.
pub open spec fn chains(rows: Map<u64, VersionChain>) -> Map<u64, Seq<Version>> {
    rows.map_values(|c: VersionChain| c@)
}

impl View for MVCCTable {
    type V = TableModel;

    open spec fn view(&self) -> TableModel {
        TableModel {
            rows: chains(self.rows@),
            index: match self.pk_index {
                Some(i) => Some(i@),
                None => None,
            },
        }
    }
}

/// The chain of a row; a row that is not there has no versions.
pub open spec fn chain_of(t: TableModel, row_id: u64) -> Seq<Version> {
    if t.rows.dom().contains(row_id) { t.rows[row_id] } else { Seq::empty() }
}

/// What a snapshot reads of a row.
pub open spec fn row_at(t: TableModel, row_id: u64, snap: u64) -> Option<Seq<u8>> {
    read_at(chain_of(t, row_id), snap)
}

/// The first number after which not every whole number is a float of its own.
pub const EXACT_BELOW: u64 = 0x20_0000_0000_0000;

/// Whether all row ids that an index keeps lie where each is a float of its own.
pub open spec fn exact_ids(index: Option<BufferedIndex>, fl: FloatModel) -> bool {
    match index {
        Some(i) => all_below(i, id_key(EXACT_BELOW, fl).bits),
        None => true,
    }
}

/// The float under which the index keeps a row id.
pub open spec fn id_key(row_id: u64, fl: FloatModel) -> F64 {
    F64 { bits: (fl.gives)(FloatOp::OfCount, row_id, 0) }
}

/// The index with one more row id.
pub open spec fn index_with(
    index: Option<BufferedIndex>,
    row_id: u64,
    fl: FloatModel,
) -> Option<BufferedIndex> {
    match index {
        Some(i) => Some(with_key(i, id_key(row_id, fl), fl)),
        None => Some(
            fresh_index(
                seq![id_key(row_id, fl)],
                PK_INDEX_ERROR_BOUND,
                PK_INDEX_BUFFER_CAPACITY,
                fl,
            ),
        ),
    }
}

/// A table after an insertion: the row gets a version, and the index its id.
pub open spec fn inserted(
    t: TableModel,
    row_id: u64,
    ts: u64,
    data: Seq<u8>,
    fl: FloatModel,
) -> TableModel {
    TableModel {
        rows: t.rows.insert(row_id, pushed(chain_of(t, row_id), ts, data)),
        index: index_with(t.index, row_id, fl),
    }
}

/// A table after an update: the living version ends, and a new one begins.
pub open spec fn updated(t: TableModel, row_id: u64, ts: u64, data: Seq<u8>) -> TableModel {
    TableModel {
        rows: t.rows.insert(row_id, pushed(expired(chain_of(t, row_id), ts), ts, data)),
        ..t
    }
}

/// A table after a deletion: the living version ends.
pub open spec fn deleted(t: TableModel, row_id: u64, ts: u64) -> TableModel {
    if t.rows.dom().contains(row_id) {
        TableModel { rows: t.rows.insert(row_id, expired(t.rows[row_id], ts)), ..t }
    } else {
        t
    }
}

/// A table whose row `row_id` has been swept.
pub open spec fn swept(t: TableModel, row_id: u64, horizon: u64) -> TableModel {
    if t.rows.dom().contains(row_id) {
        TableModel { rows: t.rows.insert(row_id, pruned(t.rows[row_id], horizon)), ..t }
    } else {
        t
    }
}

/// The rows that a snapshot sees, of the ids from the `i`-th on.
pub open spec fn seen_from(t: TableModel, ids: Seq<u64>, i: int, snap: u64) -> Seq<(u64, Seq<u8>)>
    decreases ids.len() - i,
{
    if 0 <= i < ids.len() {
        let rest = seen_from(t, ids, i + 1, snap);
        match row_at(t, ids[i], snap) {
            Some(data) => seq![(ids[i], data)] + rest,
            None => rest,
        }
    } else {
        Seq::empty()
    }
}

/// The rows that a snapshot sees, by ascending id.
pub open spec fn seen(t: TableModel, snap: u64) -> Seq<(u64, Seq<u8>)> {
    seen_from(t, in_order(t.rows.dom()), 0, snap)
}

/// Rows with their ids, as contracts speak of them.
pub open spec fn id_rows(v: Seq<(u64, Vec<u8>)>) -> Seq<(u64, Seq<u8>)> {
    v.map_values(|r: (u64, Vec<u8>)| (r.0, r.1@))
}

/// The row ids that an index yields for a range.
pub open spec fn ids_in_range(
    index: Option<BufferedIndex>,
    min: u64,
    max: u64,
    fl: FloatModel,
) -> Seq<u64> {
    match index {
        Some(i) => keys_in_range(i.keys, i.buffer, min, max).map_values(
            |k: F64| (fl.gives)(FloatOp::ToCount, k.bits, 0),
        ),
        None => Seq::empty(),
    }
}

impl MVCCTable {
    /// The index, where there is one, is in order.
    pub open spec fn wf(&self) -> bool {
        self.pk_index matches Some(i) ==> i.wf()
    }

    /// An empty table.
    pub fn new() -> (r: Self)
        ensures
            r.wf(),
            r@ == empty_table(),
    {
        let r = MVCCTable { rows: BTreeMap::new(), pk_index: None };
        assert(r@.rows =~= Map::<u64, Seq<Version>>::empty());
        r
    }

    /// What a snapshot reads of a row.
    pub fn read(&self, row_id: u64, snap_ts: u64) -> (r: Option<Vec<u8>>)
        ensures
            optional_bytes(r) == row_at(self@, row_id, snap_ts),
    {
        broadcast use vstd::std_specs::btree::group_btree_axioms;
        broadcast use vstd::laws_cmp::group_laws_cmp;

        match self.rows.get(&row_id) {
            Some(chain) => chain.read(snap_ts),
            None => None,
        }
    }

    /// Every row that a snapshot sees, by ascending id.
    pub fn scan(&self, snap_ts: u64) -> (r: Vec<(u64, Vec<u8>)>)
        ensures
            id_rows(r@) == seen(self@, snap_ts),
    {
        let ids = ascending_keys(&self.rows);
        let ghost t = self@;
        assert(t.rows.dom() =~= self.rows@.dom());
        let mut out: Vec<(u64, Vec<u8>)> = Vec::new();
        let mut i: usize = 0;
        assert(id_rows(out@) + seen_from(t, ids@, 0, snap_ts) =~= seen(t, snap_ts));
        while i < ids.len()
            invariant
                i <= ids@.len(),
                t == self@,
                seen(t, snap_ts) == id_rows(out@) + seen_from(t, ids@, i as int, snap_ts),
            decreases ids@.len() - i,
        {
            let ghost before = out@;
            match self.read(ids[i], snap_ts) {
                Some(data) => {
                    out.push((ids[i], data));
                    assert(id_rows(out@) =~= id_rows(before).push((ids@[i as int], data@)));
                    assert(id_rows(before) + seen_from(t, ids@, i as int, snap_ts) =~= id_rows(out@)
                        + seen_from(t, ids@, i + 1, snap_ts));
                },
                None => {},
            }
            i = i + 1;
        }
        assert(id_rows(out@) =~= seen(t, snap_ts));
        out
    }

    /// The row ids in `min..=max` that the index knows: candidates, which may
    /// have been deleted since.
    pub fn index_range<F: Floats>(&self, min: F64, max: F64, floats: &F) -> (r: Vec<u64>)
        requires
            floats.sound(),
            self.wf(),
            !not_a_number(min.bits),
        ensures
            r@ == ids_in_range(self@.index, min.bits, max.bits, floats.model()),
    {
        let mut out: Vec<u64> = Vec::new();
        match &self.pk_index {
            Some(index) => {
                let keys = index.range_search(min, max, floats);
                let ghost fl = floats.model();
                let mut i: usize = 0;
                while i < keys.len()
                    invariant
                        i <= keys@.len(),
                        floats.sound(),
                        fl == floats.model(),
                        out@ == keys@.take(i as int).map_values(
                            |k: F64| (fl.gives)(FloatOp::ToCount, k.bits, 0),
                        ),
                    decreases keys@.len() - i,
                {
                    out.push(floats.apply(FloatOp::ToCount, keys[i].bits, 0));
                    assert(keys@.take(i + 1).map_values(
                        |k: F64| (fl.gives)(FloatOp::ToCount, k.bits, 0),
                    ) =~= out@);
                    i = i + 1;
                }
                assert(keys@.take(i as int) == keys@);
                out
            },
            None => out,
        }
    }

    /// Whether all row ids that the index keeps lie where each is a float of its own.
    pub fn has_exact_ids<F: Floats>(&self, floats: &F) -> (r: bool)
        requires
            floats.sound(),
            self.wf(),
        ensures
            r == exact_ids(self@.index, floats.model()),
    {
        match &self.pk_index {
            Some(index) => index.is_below(
                F64 { bits: floats.apply(FloatOp::OfCount, EXACT_BELOW, 0) },
            ),
            None => true,
        }
    }

    /// The memory that the index over the row ids takes: none before the first
    /// insertion.
    pub fn pk_index_heap_bytes(&self) -> (r: usize)
        ensures
            match self.pk_index {
                Some(index) => exists|segment_room: usize, key_room: usize, buffer_room: usize|
                    segment_room >= index.base.segments@.len() && key_room
                        >= index.base.keys@.len() && buffer_room >= index.write_buffer@.len() && r
                        == #[trigger] buffered_bytes(
                        #[trigger] index_bytes(segment_room, key_room),
                        buffer_room,
                    ),
                None => r == 0,
            },
    {
        match &self.pk_index {
            Some(index) => index.heap_bytes(),
            None => 0,
        }
    }

    fn index_insert<F: Floats>(&mut self, row_id: u64, floats: &F)
        requires
            floats.sound(),
            old(self).wf(),
        ensures
            final(self).wf(),
            final(self).rows == old(self).rows,
            final(self)@.index == index_with(old(self)@.index, row_id, floats.model()),
    {
        let key = F64 { bits: floats.apply(FloatOp::OfCount, row_id, 0) };
        let mut index = None;
        std::mem::swap(&mut index, &mut self.pk_index);
        match index {
            Some(i) => {
                let mut i = i;
                i.insert(key, floats);
                self.pk_index = Some(i);
            },
            None => {
                let mut keys: Vec<F64> = Vec::new();
                keys.push(key);
                assert(keys@ =~= seq![key]);
                assert(sorted_floats(keys@));
                self.pk_index = Some(
                    DynamicPGMIndex::new(
                        keys,
                        PK_INDEX_ERROR_BOUND,
                        PK_INDEX_BUFFER_CAPACITY,
                        floats,
                    ),
                );
            },
        }
    }

    /// Takes a row's chain out of the table; a row that is not there has an
    /// empty one.
    fn take_chain(&mut self, row_id: u64) -> (r: VersionChain)
        ensures
            r@ == chain_of(old(self)@, row_id),
            final(self).rows@ == old(self).rows@.remove(row_id),
            final(self).pk_index == old(self).pk_index,
    {
        broadcast use vstd::std_specs::btree::group_btree_axioms;
        broadcast use vstd::laws_cmp::group_laws_cmp;

        match self.rows.remove(&row_id) {
            Some(chain) => chain,
            None => {
                assert(self.rows@ =~= old(self).rows@.remove(row_id));
                VersionChain::new()
            },
        }
    }

    /// Applies a committed insertion.
    pub fn apply_insert<F: Floats>(&mut self, row_id: u64, commit_ts: u64, data: Vec<u8>, floats: &F)
        requires
            floats.sound(),
            old(self).wf(),
        ensures
            final(self).wf(),
            final(self)@ == inserted(old(self)@, row_id, commit_ts, data@, floats.model()),
    {
        broadcast use vstd::std_specs::btree::group_btree_axioms;
        broadcast use vstd::laws_cmp::group_laws_cmp;

        let mut chain = self.take_chain(row_id);
        chain.push_version(commit_ts, data);
        self.rows.insert(row_id, chain);
        self.index_insert(row_id, floats);
        assert(self@.rows =~= inserted(
            old(self)@,
            row_id,
            commit_ts,
            data@,
            floats.model(),
        ).rows);
    }

    /// Applies a committed update.
    pub fn apply_update(&mut self, row_id: u64, commit_ts: u64, data: Vec<u8>)
        requires
            old(self).wf(),
        ensures
            final(self).wf(),
            final(self)@ == updated(old(self)@, row_id, commit_ts, data@),
    {
        broadcast use vstd::std_specs::btree::group_btree_axioms;
        broadcast use vstd::laws_cmp::group_laws_cmp;

        let mut chain = self.take_chain(row_id);
        chain.expire_live(commit_ts);
        chain.push_version(commit_ts, data);
        self.rows.insert(row_id, chain);
        assert(self@.rows =~= updated(old(self)@, row_id, commit_ts, data@).rows);
    }

    /// Applies a committed deletion.
    pub fn apply_delete(&mut self, row_id: u64, commit_ts: u64)
        requires
            old(self).wf(),
        ensures
            final(self).wf(),
            final(self)@ == deleted(old(self)@, row_id, commit_ts),
    {
        broadcast use vstd::std_specs::btree::group_btree_axioms;
        broadcast use vstd::laws_cmp::group_laws_cmp;

        if self.rows.contains_key(&row_id) {
            let mut chain = self.take_chain(row_id);
            chain.expire_live(commit_ts);
            self.rows.insert(row_id, chain);
            assert(self@.rows =~= deleted(old(self)@, row_id, commit_ts).rows);
        }
    }

    /// The number of rows that have a chain.
    pub fn row_count(&self) -> (r: usize)
        ensures
            r == self@.rows.dom().len(),
    {
        broadcast use vstd::std_specs::btree::group_btree_axioms;

        assert(self@.rows.dom() =~= self.rows@.dom());
        self.rows.len()
    }

    /// The number of versions of a row.
    pub fn version_count(&self, row_id: u64) -> (r: usize)
        ensures
            r == chain_of(self@, row_id).len(),
    {
        broadcast use vstd::std_specs::btree::group_btree_axioms;
        broadcast use vstd::laws_cmp::group_laws_cmp;

        match self.rows.get(&row_id) {
            Some(chain) => chain.versions.len(),
            None => 0,
        }
    }

    /// Drops the versions of a row that ended at `horizon` or before. The
    /// number of dropped versions comes back.
    pub fn prune_row(&mut self, row_id: u64, horizon: u64) -> (r: usize)
        requires
            old(self).wf(),
        ensures
            final(self).wf(),
            final(self)@ == swept(old(self)@, row_id, horizon),
            r == chain_of(old(self)@, row_id).len() - chain_of(final(self)@, row_id).len(),
    {
        broadcast use vstd::std_specs::btree::group_btree_axioms;
        broadcast use vstd::laws_cmp::group_laws_cmp;

        if self.rows.contains_key(&row_id) {
            let mut chain = self.take_chain(row_id);
            let dropped = chain.prune(horizon);
            self.rows.insert(row_id, chain);
            assert(self@.rows =~= swept(old(self)@, row_id, horizon).rows);
            dropped
        } else {
            0
        }
    }
}

/// The table without rows.
pub open spec fn empty_table() -> TableModel {
    TableModel { rows: Map::empty(), index: None }
}

// ---- the store -----------------------------------------------------------------------

/// All tables.
pub struct MVCCStore {
    pub tables: BTreeMap<u64, MVCCTable>,
}

/// The tables of a store.
pub open spec fn table_models(tables: Map<u64, MVCCTable>) -> Map<u64, TableModel> {
    tables.map_values(|t: MVCCTable| t@)
}

impl View for MVCCStore {
    type V = Map<u64, TableModel>;

    open spec fn view(&self) -> Map<u64, TableModel> {
        table_models(self.tables@)
    }
}

/// A store after one write that was committed at `ts`. A write to a table that
/// is not there does nothing.
pub open spec fn written(
    s: Map<u64, TableModel>,
    w: Write,
    ts: u64,
    fl: FloatModel,
) -> Map<u64, TableModel> {
    let id = target(w).0;
    if s.dom().contains(id) {
        s.insert(
            id,
            match w {
                Write::Insert { row_id, data, .. } => inserted(s[id], row_id, ts, data, fl),
                Write::Update { row_id, data, .. } => updated(s[id], row_id, ts, data),
                Write::Delete { row_id, .. } => deleted(s[id], row_id, ts),
            },
        )
    } else {
        s
    }
}

/// A store after the first `n` of some writes.
pub open spec fn all_written(
    s: Map<u64, TableModel>,
    ws: Seq<Write>,
    n: int,
    ts: u64,
    fl: FloatModel,
) -> Map<u64, TableModel>
    decreases n,
{
    if n <= 0 { s } else { written(all_written(s, ws, n - 1, ts, fl), ws[n - 1], ts, fl) }
}

/// What a snapshot reads of a row of a table.
pub open spec fn stored_at(s: Map<u64, TableModel>, table_id: u64, row_id: u64, snap: u64) -> Option<
    Seq<u8>,
> {
    if s.dom().contains(table_id) { row_at(s[table_id], row_id, snap) } else { None }
}

impl MVCCStore {
    /// Every table is in order.
    pub open spec fn wf(&self) -> bool {
        forall|id: u64| #[trigger] self.tables@.dom().contains(id) ==> self.tables@[id].wf()
    }

    /// A store without tables.
    pub fn new() -> (r: Self)
        ensures
            r.wf(),
            r@ == Map::<u64, TableModel>::empty(),
    {
        let r = MVCCStore { tables: BTreeMap::new() };
        assert(r@ =~= Map::<u64, TableModel>::empty());
        r
    }

    /// Creates a table, where it is not there yet.
    pub fn create_table(&mut self, table_id: u64)
        requires
            old(self).wf(),
        ensures
            final(self).wf(),
            final(self)@ == with_table(old(self)@, table_id),
    {
        broadcast use vstd::std_specs::btree::group_btree_axioms;
        broadcast use vstd::laws_cmp::group_laws_cmp;

        if !self.tables.contains_key(&table_id) {
            self.tables.insert(table_id, MVCCTable::new());
        }
        assert(self@ =~= with_table(old(self)@, table_id));
    }

    /// A table.
    pub fn table(&self, table_id: u64) -> (r: &MVCCTable)
        requires
            self.wf(),
            self@.dom().contains(table_id),
        ensures
            r.wf(),
            r@ == self@[table_id],
    {
        broadcast use vstd::std_specs::btree::group_btree_axioms;
        broadcast use vstd::laws_cmp::group_laws_cmp;

        self.tables.get(&table_id).unwrap()
    }

    /// A table, where it is there.
    pub fn get_table(&self, table_id: u64) -> (r: Option<&MVCCTable>)
        requires
            self.wf(),
        ensures
            match r {
                Some(t) => self@.dom().contains(table_id) && t.wf() && t@ == self@[table_id],
                None => !self@.dom().contains(table_id),
            },
    {
        broadcast use vstd::std_specs::btree::group_btree_axioms;
        broadcast use vstd::laws_cmp::group_laws_cmp;

        self.tables.get(&table_id)
    }

    /// Whether a snapshot sees a row.
    pub fn row_exists(&self, table_id: u64, row_id: u64, snap_ts: u64) -> (r: bool)
        requires
            self.wf(),
        ensures
            r == stored_at(self@, table_id, row_id, snap_ts) is Some,
    {
        match self.get_table(table_id) {
            Some(t) => match t.read(row_id, snap_ts) {
                Some(_) => true,
                None => false,
            },
            None => false,
        }
    }

    fn apply_one<F: Floats>(&mut self, op: &WriteOp, commit_ts: u64, floats: &F)
        requires
            floats.sound(),
            old(self).wf(),
        ensures
            final(self).wf(),
            final(self)@ == written(old(self)@, op@, commit_ts, floats.model()),
    {
        broadcast use vstd::std_specs::btree::group_btree_axioms;
        broadcast use vstd::laws_cmp::group_laws_cmp;

        let table_id: u64 = op.table_row().0;
        assert(self@.dom() =~= self.tables@.dom());
        match self.tables.remove(&table_id) {
            Some(table) => {
                let mut table = table;
                match op {
                    WriteOp::Insert { row_id, data, .. } => {
                        table.apply_insert(*row_id, commit_ts, copy_bytes(data), floats);
                    },
                    WriteOp::Update { row_id, data, .. } => {
                        table.apply_update(*row_id, commit_ts, copy_bytes(data));
                    },
                    WriteOp::Delete { row_id, .. } => {
                        table.apply_delete(*row_id, commit_ts);
                    },
                }
                self.tables.insert(table_id, table);
                assert(self@ =~= written(old(self)@, op@, commit_ts, floats.model()));
            },
            None => {
                assert(self@ =~= old(self)@);
            },
        }
    }

    /// Applies the writes of a transaction that committed at `commit_ts`.
    pub fn apply_write_set<F: Floats>(&mut self, ops: &[WriteOp], commit_ts: u64, floats: &F)
        requires
            floats.sound(),
            old(self).wf(),
        ensures
            final(self).wf(),
            final(self)@ == all_written(
                old(self)@,
                writes(ops@),
                ops@.len() as int,
                commit_ts,
                floats.model(),
            ),
    {
        let mut i: usize = 0;
        while i < ops.len()
            invariant
                i <= ops@.len(),
                floats.sound(),
                self.wf(),
                self@ == all_written(
                    old(self)@,
                    writes(ops@),
                    i as int,
                    commit_ts,
                    floats.model(),
                ),
            decreases ops@.len() - i,
        {
            self.apply_one(&ops[i], commit_ts, floats);
            i = i + 1;
        }
    }

    /// Drops the versions of a row that ended at `horizon` or before. The
    /// number of dropped versions comes back.
    pub fn prune_row(&mut self, table_id: u64, row_id: u64, horizon: u64) -> (r: usize)
        requires
            old(self).wf(),
        ensures
            final(self).wf(),
            final(self)@ == swept_store(old(self)@, table_id, row_id, horizon),
            r == pruned_count(old(self)@, table_id, row_id, horizon),
    {
        broadcast use vstd::std_specs::btree::group_btree_axioms;
        broadcast use vstd::laws_cmp::group_laws_cmp;

        assert(self@.dom() =~= self.tables@.dom());
        match self.tables.remove(&table_id) {
            Some(table) => {
                let mut table = table;
                let dropped = table.prune_row(row_id, horizon);
                self.tables.insert(table_id, table);
                assert(self@ =~= swept_store(old(self)@, table_id, row_id, horizon));
                dropped
            },
            None => {
                assert(self@ =~= old(self)@);
                0
            },
        }
    }
}

/// A store in which a table is sure to be.
pub open spec fn with_table(s: Map<u64, TableModel>, table_id: u64) -> Map<u64, TableModel> {
    if s.dom().contains(table_id) { s } else { s.insert(table_id, empty_table()) }
}

/// A store in which one row has been swept.
pub open spec fn swept_store(
    s: Map<u64, TableModel>,
    table_id: u64,
    row_id: u64,
    horizon: u64,
) -> Map<u64, TableModel> {
    if s.dom().contains(table_id) {
        s.insert(table_id, swept(s[table_id], row_id, horizon))
    } else {
        s
    }
}

/// How many versions a sweep of a row drops.
pub open spec fn pruned_count(
    s: Map<u64, TableModel>,
    table_id: u64,
    row_id: u64,
    horizon: u64,
) -> int {
    if s.dom().contains(table_id) {
        let chain = chain_of(s[table_id], row_id);
        chain.len() - pruned(chain, horizon).len()
    } else {
        0
    }
}

// ---- what a store keeps --------------------------------------------------------------

/// A write that is committed at `ts` changes nothing for an earlier snapshot.
pub proof fn earlier_snapshots_see_no_write(
    s: Map<u64, TableModel>,
    ws: Seq<Write>,
    n: int,
    ts: u64,
    fl: FloatModel,
    table_id: u64,
    row_id: u64,
    snap: u64,
)
    requires
        snap < ts,
        n <= ws.len(),
    ensures
        stored_at(all_written(s, ws, n, ts, fl), table_id, row_id, snap) == stored_at(
            s,
            table_id,
            row_id,
            snap,
        ),
    decreases n,
{
    if n > 0 {
        earlier_snapshots_see_no_write(s, ws, n - 1, ts, fl, table_id, row_id, snap);
        let before = all_written(s, ws, n - 1, ts, fl);
        let w = ws[n - 1];
        if before.dom().contains(table_id) && target(w) == (table_id, row_id) {
            let chain = chain_of(before[table_id], row_id);
            let data = match w {
                Write::Insert { data, .. } => data,
                Write::Update { data, .. } => data,
                Write::Delete { .. } => Seq::empty(),
            };
            earlier_snapshots_see_no_change(chain, ts, data, snap);
            earlier_snapshots_see_no_change(expired(chain, ts), ts, data, snap);
        }
    }
}

/// A write touches no row but its own.
pub proof fn other_rows_stay(
    s: Map<u64, TableModel>,
    ws: Seq<Write>,
    n: int,
    ts: u64,
    fl: FloatModel,
    table_id: u64,
    row_id: u64,
)
    requires
        n <= ws.len(),
        forall|i: int| 0 <= i < n ==> target(#[trigger] ws[i]) != (table_id, row_id),
    ensures
        all_written(s, ws, n, ts, fl).dom() == s.dom(),
        s.dom().contains(table_id) ==> chain_of(
            all_written(s, ws, n, ts, fl)[table_id],
            row_id,
        ) == chain_of(s[table_id], row_id),
    decreases n,
{
    if n > 0 {
        other_rows_stay(s, ws, n - 1, ts, fl, table_id, row_id);
        assert(target(ws[n - 1]) != (table_id, row_id));
        assert(all_written(s, ws, n, ts, fl).dom() =~= s.dom());
    }
}

/// What the last write to a row left is what a snapshot at `ts` or later reads:
/// the bytes that it gave the row.
pub proof fn the_last_write_is_read(
    s: Map<u64, TableModel>,
    ws: Seq<Write>,
    k: int,
    ts: u64,
    fl: FloatModel,
    snap: u64,
)
    requires
        0 <= k < ws.len(),
        !(ws[k] is Delete),
        s.dom().contains(target(ws[k]).0),
        forall|i: int| k < i < ws.len() ==> target(#[trigger] ws[i]) != target(ws[k]),
        ts <= snap < TS_INFINITY,
    ensures
        ({
            let data = match ws[k] {
                Write::Insert { data, .. } => data,
                Write::Update { data, .. } => data,
                Write::Delete { .. } => Seq::empty(),
            };
            stored_at(
                all_written(s, ws, ws.len() as int, ts, fl),
                target(ws[k]).0,
                target(ws[k]).1,
                snap,
            ) == Some(data)
        }),
{
    let table_id = target(ws[k]).0;
    let row_id = target(ws[k]).1;
    lemma_tables_stay(s, ws, k, ts, fl);
    let before = all_written(s, ws, k, ts, fl);
    let after = all_written(s, ws, k + 1, ts, fl);
    let chain = chain_of(before[table_id], row_id);
    let data = match ws[k] {
        Write::Insert { data, .. } => data,
        Write::Update { data, .. } => data,
        Write::Delete { .. } => Seq::empty(),
    };
    later_snapshots_see_the_push(chain, ts, data, snap);
    later_snapshots_see_the_push(expired(chain, ts), ts, data, snap);
    assert(stored_at(after, table_id, row_id, snap) == Some(data));
    lemma_rest_stays(s, ws, k + 1, ws.len() as int, ts, fl, table_id, row_id);
    lemma_tables_stay(s, ws, k + 1, ts, fl);
    lemma_tables_stay(s, ws, ws.len() as int, ts, fl);
}

pub(crate) proof fn lemma_tables_stay(
    s: Map<u64, TableModel>,
    ws: Seq<Write>,
    n: int,
    ts: u64,
    fl: FloatModel,
)
    ensures
        all_written(s, ws, n, ts, fl).dom() == s.dom(),
    decreases n,
{
    if n > 0 {
        lemma_tables_stay(s, ws, n - 1, ts, fl);
        assert(all_written(s, ws, n, ts, fl).dom() =~= s.dom());
    }
}

pub(crate) proof fn lemma_rest_stays(
    s: Map<u64, TableModel>,
    ws: Seq<Write>,
    m: int,
    n: int,
    ts: u64,
    fl: FloatModel,
    table_id: u64,
    row_id: u64,
)
    requires
        0 <= m <= n <= ws.len(),
        forall|i: int| m <= i < n ==> target(#[trigger] ws[i]) != (table_id, row_id),
        s.dom().contains(table_id),
    ensures
        chain_of(all_written(s, ws, n, ts, fl)[table_id], row_id) == chain_of(
            all_written(s, ws, m, ts, fl)[table_id],
            row_id,
        ),
    decreases n - m,
{
    lemma_tables_stay(s, ws, n, ts, fl);
    if n > m {
        lemma_rest_stays(s, ws, m, n - 1, ts, fl, table_id, row_id);
        lemma_tables_stay(s, ws, n - 1, ts, fl);
        assert(target(ws[n - 1]) != (table_id, row_id));
    }
}

/// A sweep takes nothing from a snapshot at the horizon or behind it.
pub proof fn sweeping_is_safe(
    s: Map<u64, TableModel>,
    swept_table: u64,
    swept_row: u64,
    horizon: u64,
    table_id: u64,
    row_id: u64,
    snap: u64,
)
    requires
        snap >= horizon,
    ensures
        stored_at(swept_store(s, swept_table, swept_row, horizon), table_id, row_id, snap)
            == stored_at(s, table_id, row_id, snap),
{
    if s.dom().contains(swept_table) && table_id == swept_table && row_id == swept_row {
        pruning_is_safe(chain_of(s[table_id], row_id), horizon, snap);
    }
}

} // verus!
