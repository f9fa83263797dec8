//! The engine as a whole: statements in, rows out.

use vstd::prelude::*;
use crate::execution::catalog::{Catalog, SchemaModel};
use crate::execution::oltp::{new_engine, Engine, OLTPEngine};
use crate::execution::operators::Datum;
use crate::execution::secondary_index::SecondaryIndex;
use crate::optimizer::cardinality::{ColumnStats, StatsModel};
use crate::optimizer::cost_model::{unit_costs, CostModel};
use crate::optimizer::planner::QueryPlanner;

verus! {

/// An index over a column that is not the primary key.
pub struct TableIndex {
    pub table_id: u64,
    pub column: String,
    pub index: SecondaryIndex,
}

/// An index as contracts speak of it: the rows of each value.
pub struct IndexModel {
    pub table_id: u64,
    pub column: Seq<char>,
    pub entries: Seq<(Datum, Seq<u64>)>,
}

impl View for TableIndex {
    type V = IndexModel;

    open spec fn view(&self) -> IndexModel {
        IndexModel { table_id: self.table_id, column: self.column@, entries: self.index@ }
    }
}

/// Some indexes, each as its model.
pub open spec fn index_models(v: Seq<TableIndex>) -> Seq<IndexModel> {
    v.map_values(|i: TableIndex| i@)
}

/// A database: its tables, their rows, their indexes, and what is known of their
/// columns.
pub struct QueryExecutor {
    pub catalog: Catalog,
    pub oltp: OLTPEngine,
    pub planner: QueryPlanner,
    pub secondary_indexes: Vec<TableIndex>,
    pub stats: ColumnStats,
}

/// A database as contracts speak of it.
pub struct Db {
    pub catalog: Seq<SchemaModel>,
    pub engine: Engine,
    pub indexes: Seq<IndexModel>,
    pub stats: StatsModel,
    pub costs: CostModel,
    pub join_costs: CostModel,
}

impl View for QueryExecutor {
    type V = Db;

    open spec fn view(&self) -> Db {
        Db {
            catalog: self.catalog@,
            engine: self.oltp@,
            indexes: index_models(self.secondary_indexes@),
            stats: self.stats@,
            costs: self.planner.cost_model,
            join_costs: self.planner.join_orderer.cost_model,
        }
    }
}

/// A database with some tables that hold no rows.
pub open spec fn new_db(catalog: Seq<SchemaModel>) -> Db {
    Db {
        catalog,
        engine: new_engine(),
        indexes: Seq::empty(),
        stats: Seq::empty(),
        costs: unit_costs(),
        join_costs: unit_costs(),
    }
}

impl QueryExecutor {
    /// The storage, the indexes and what is known of the columns are in order.
    pub open spec fn wf(&self) -> bool {
        &&& self.oltp.wf()
        &&& self.stats.wf()
        &&& forall|i: int|
            0 <= i < self.secondary_indexes@.len() ==> (
            #[trigger] self.secondary_indexes@[i]).index.wf()
    }

    /// A database with the tables of a catalog, which hold no rows.
    pub fn new(catalog: Catalog) -> (r: Self)
        ensures
            r.wf(),
            r@ == new_db(catalog@),
    {
        let r = QueryExecutor {
            catalog,
            oltp: OLTPEngine::new(),
            planner: QueryPlanner::new(),
            secondary_indexes: Vec::new(),
            stats: ColumnStats::new(),
        };
        assert(r@.indexes =~= Seq::<IndexModel>::empty());
        r
    }
}

} // verus!
