//! Between the text of a statement and typed rows: literals, placeholders,
//! predicates, assignments and sort keys.

pub mod arithmetic_laws;
pub mod assignment;
pub mod bytes;
pub mod comparison_laws;
pub mod literal_laws;
pub mod literals;
pub mod ordering;
pub mod placeholders;
pub mod precedence_laws;
pub mod predicate;
pub mod predicate_laws;
pub mod sorting_laws;
pub mod tokens;

pub use assignment::CompiledAssignment;
pub use literals::{literal_repr, parse_literal_checked, parse_value, value_to_string};
pub use ordering::{compare_for_sort, parse_order_by};
pub use placeholders::{scan_placeholders, substitute_placeholders, substitute_token};
pub use predicate::{evaluate_predicate, CompiledPredicate};
pub use tokens::{split_comparison, tokenize_expr};
