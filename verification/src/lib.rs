//! Front-end foundations of a multi-inheritance class language: a tokenizer
//! that lexes source text into a token stream with positioned diagnostics, and
//! a type/property registry that computes each class's effective property
//! table (accessible / clashing / shadowed names) under multiple inheritance.

pub mod containers;
pub mod errors;
pub mod laws;
pub mod lexer;
pub mod meta;
pub mod registry;
pub mod report;
pub mod strutil;
pub mod token;
pub mod types;
