//! An arithmetic-expression front end: a tokenizer that turns text into
//! tokens and a recursive-descent parser that turns tokens into a syntax tree.
//!
//! Numbers are kept as exact decimal literals, so every contract in this
//! crate is stated over integers and sequences.
pub mod ast;
pub mod error;
pub mod grammar;
pub mod number;
pub mod parser;
pub mod render;
pub mod token;
pub mod tokenizer;
