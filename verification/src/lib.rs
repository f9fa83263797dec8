//! ShrestiDB: a small relational engine whose query, storage and transaction
//! logic is proved against its contracts.
//!
//! Floating point does not occur in this crate. A float is carried as its bit
//! pattern and ordered by integer comparison; reading, printing and computing
//! with floats is done by the [`float::FloatUnit`] that a caller hands in.

pub mod compute;
pub mod distributed;
pub mod error;
pub mod execution;
pub mod float;
pub mod index;
pub mod ml;
pub mod optimizer;
pub mod sql;
pub mod text;

use vstd::prelude::*;
pub use error::DatabaseError;

verus! {

/// The version of the engine.
pub const VERSION: &'static str = "0.1.0";

} // verus!
