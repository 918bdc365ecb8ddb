//! Parser for small natural-deduction proof scripts.
//!
//! A script names a theorem, marks the start of its proof, and then lists one
//! inference step per line. Each step command requires a fixed number of
//! sub-steps, which follow it in depth-first order. Parsing yields a tree of
//! inference nodes rooted at the theorem's goal statement.
pub mod command;
pub mod inference;
pub mod laws;
pub mod parser;
pub mod text;

pub use command::Command;
pub use inference::Inference;
pub use parser::{ParseError, Parser};
