//! Searching and computing on lists of floats.

pub mod simd_ops;
pub mod vector_laws;
pub mod vector_math;
