//! Models fitted to data.

pub mod regression;
pub mod regression_laws;

pub use regression::LinearRegression;
