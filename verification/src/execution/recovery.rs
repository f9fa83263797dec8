//! Rebuilding the catalog and the tables from a log.

use vstd::prelude::*;
use crate::execution::catalog::{registered, Catalog, SchemaModel};
use crate::execution::mvcc_store::{all_written, with_table, TableModel};
use crate::execution::oltp::{Engine, OLTPEngine};
use crate::execution::wal::{records, Record, WalRecord};
use crate::float::{FloatModel, Floats};

verus! {

/// Replays logs.
pub struct RecoveryManager;

/// What has been rebuilt: the catalog, the tables, the highest timestamp, and
/// the table and column of each index that is to be built.
pub struct Rebuilt {
    pub catalog: Seq<SchemaModel>,
    pub tables: Map<u64, TableModel>,
    pub top: u64,
    pub indexes: Seq<(u64, Seq<char>)>,
}

/// What one more record adds.
pub open spec fn replayed(b: Rebuilt, r: Record, fl: FloatModel) -> Rebuilt {
    match r {
        Record::CreateTable(s) => Rebuilt {
            catalog: registered(b.catalog, s),
            tables: with_table(b.tables, s.table_id as u64),
            ..b
        },
        Record::CreateIndex { table_id, column } => Rebuilt {
            indexes: b.indexes.push((table_id, column)),
            ..b
        },
        Record::Commit { commit_ts, ops } => Rebuilt {
            tables: all_written(b.tables, ops, ops.len() as int, commit_ts, fl),
            top: if commit_ts > b.top { commit_ts } else { b.top },
            ..b
        },
    }
}

/// What the first `n` records rebuild.
pub open spec fn rebuilt(start: Rebuilt, rs: Seq<Record>, n: int, fl: FloatModel) -> Rebuilt
    decreases n,
{
    if n <= 0 { start } else { replayed(rebuilt(start, rs, n - 1, fl), rs[n - 1], fl) }
}

/// The tables and columns of some indexes.
pub open spec fn index_specs(v: Seq<(u64, String)>) -> Seq<(u64, Seq<char>)> {
    v.map_values(|s: (u64, String)| (s.0, s.1@))
}

impl RecoveryManager {
    /// Replays the records of a log, in their order, into a catalog and an
    /// engine, and advances the clock past every replayed commit. The table and
    /// column of each index that is to be built come back.
    pub fn recover<F: Floats>(
        log: Vec<WalRecord>,
        catalog: &mut Catalog,
        oltp: &mut OLTPEngine,
        floats: &F,
    ) -> (r: Vec<(u64, String)>)
        requires
            floats.sound(),
            old(oltp).wf(),
        ensures
            final(oltp).wf(),
            ({
                let start = Rebuilt {
                    catalog: old(catalog)@,
                    tables: old(oltp)@.tables,
                    top: 0,
                    indexes: Seq::empty(),
                };
                let end = rebuilt(
                    start,
                    records(log@),
                    log@.len() as int,
                    floats.model(),
                );
                &&& final(catalog)@ == end.catalog
                &&& index_specs(r@) == end.indexes
                &&& final(oltp)@ == (Engine {
                    tables: end.tables,
                    clock: if end.top > old(oltp)@.clock {
                        end.top
                    } else {
                        old(oltp)@.clock
                    },
                    ..old(oltp)@
                })
            }),
    {
        let ghost fl = floats.model();
        let ghost rs = records(log@);
        let ghost e = oltp@;
        let ghost start = Rebuilt {
            catalog: catalog@,
            tables: oltp@.tables,
            top: 0,
            indexes: Seq::empty(),
        };
        let mut top: u64 = 0;
        let mut specs: Vec<(u64, String)> = Vec::new();
        let mut i: usize = 0;
        assert(index_specs(specs@) =~= Seq::<(u64, Seq<char>)>::empty());
        while i < log.len()
            invariant
                i <= log@.len(),
                floats.sound(),
                fl == floats.model(),
                rs == records(log@),
                oltp.wf(),
                oltp@ == (Engine { tables: oltp@.tables, ..e }),
                rebuilt(start, rs, i as int, fl) == (Rebuilt {
                    catalog: catalog@,
                    tables: oltp@.tables,
                    top,
                    indexes: index_specs(specs@),
                }),
            decreases log@.len() - i,
        {
            assert(rs[i as int] == log@[i as int]@);
            match &log[i] {
                WalRecord::CreateTable(schema) => {
                    oltp.create_table(schema.table_id as u64);
                    catalog.register_table(schema.clone());
                },
                WalRecord::CreateIndex { table_id, column } => {
                    let ghost before = specs@;
                    specs.push((*table_id, column.clone()));
                    assert(index_specs(specs@) =~= index_specs(before).push(
                        (*table_id, column@),
                    ));
                },
                WalRecord::Commit { commit_ts, ops } => {
                    let ghost before = oltp@;
                    oltp.store.apply_write_set(ops.as_slice(), *commit_ts, floats);
                    assert(oltp@.snapshots == before.snapshots && oltp@.clock == before.clock);
                    if *commit_ts > top {
                        top = *commit_ts;
                    }
                },
            }
            i = i + 1;
        }
        oltp.restore_commit_clock(top);
        specs
    }
}

/// No commit that is replayed has a timestamp above the restored clock.
pub proof fn replayed_timestamps_are_not_reused(start: Rebuilt, rs: Seq<Record>, n: int, fl: FloatModel, k: int)
    requires
        0 <= k < n <= rs.len(),
        rs[k] is Commit,
    ensures
        rs[k]->commit_ts <= rebuilt(start, rs, n, fl).top,
    decreases n,
{
    if k < n - 1 {
        replayed_timestamps_are_not_reused(start, rs, n - 1, fl, k);
    }
}

} // verus!
