//! Reader of value change dumps.
pub mod lexer;
pub mod parser;
