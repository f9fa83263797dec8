//! Index structures over float keys.

pub mod btree;
pub mod dynamic_pgm;
pub mod hybrid_router;
pub mod memory;
pub mod memory_laws;
pub mod models;
pub mod pgm;
pub mod rmi;
pub mod search_laws;
pub mod segment_laws;
