//! A small recursive-descent parser from JSON-like text to a value tree.
pub mod cursor;
pub mod error;
pub mod grammar;
pub mod laws;
pub mod value;
pub mod parser;
mod text;
