//! Statements: their text, their parts and what they refer to.

pub mod binder;
pub mod parser;
pub mod parser_laws;
pub mod source;

pub use binder::Binder;
pub use parser::SQLParser;
