//! Statement execution: values and schemas, expressions, relational
//! operators, transactional storage and recovery.

pub mod aggregate;
pub mod aggregate_laws;
pub mod bookkeeping_laws;
pub mod catalog;
pub mod cells;
pub mod change_laws;
pub mod changes;
pub mod definition_laws;
pub mod definitions;
pub mod durability;
pub mod executor;
pub mod grouping;
pub mod ids;
pub mod index_laws;
pub mod join;
pub mod join_laws;
pub mod join_row_laws;
pub mod join_schema;
pub mod key_laws;
pub mod key_lookup_laws;
pub mod learned_retention;
pub mod lock_manager;
pub mod mvcc_store;
pub mod oltp;
pub mod operators;
pub mod parameter_laws;
pub mod prepared;
pub mod prepared_laws;
pub mod query;
pub mod query_laws;
pub mod recovery;
pub mod relation;
pub mod result_laws;
pub mod row_codec;
pub mod row_key;
pub mod scan;
pub mod secondary_index;
pub mod secondary_index_laws;
pub mod statement_laws;
pub mod statements;
pub mod step_laws;
pub mod transaction;
pub mod visibility;
pub mod wal;

pub use catalog::Catalog;
pub use executor::QueryExecutor;
pub use learned_retention::RetentionPredictor;
pub use lock_manager::LockManager;
pub use mvcc_store::MVCCStore;
pub use oltp::OLTPEngine;
pub use transaction::TransactionManager;
