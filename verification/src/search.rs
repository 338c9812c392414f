//! The search language over signal values and transitions.
pub mod expr;
pub mod grammar;
pub mod level;
pub mod parser;
pub mod types;

pub use self::expr::{ExprAst, ValueAst};
pub use self::types::{FindingsSummary, Search};
