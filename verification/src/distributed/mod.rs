//! Spreading work and data over machines.

pub mod coordinator;
pub mod partitioner;
pub mod placement_laws;
