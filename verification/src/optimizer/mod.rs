//! Planning queries.

pub mod cardinality;
pub mod cardinality_laws;
pub mod cost_model;
pub mod join_reorder;
pub mod planner;
pub mod planner_laws;

pub use cost_model::CostModel;
pub use join_reorder::JoinOrderer;
pub use planner::QueryPlanner;
