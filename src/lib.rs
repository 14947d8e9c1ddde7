//! A reverse-Polish calculator: a stack of integers and a table of named
//! variables, driven by whitespace-separated tokens.
//!
//! - `arith`: the arithmetic, checked against `isize`.
//! - `op`: the operations and the grammar of tokens.
//! - `state`: the stack machine and the evaluation of a line.
//! - `laws`: properties that relate several operations.
pub mod arith;
pub mod laws;
pub mod op;
pub mod state;
