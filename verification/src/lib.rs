//! Lexical analyzer for the Lynx expression language.
//!
//! The crate turns raw source text into a flat, ordered sequence of
//! classified tokens, each carrying its exact source location, or reports
//! the first lexical error encountered.  The scanner owns a single cursor
//! over the whole source buffer and a pair of 1-based line/column counters;
//! every lexing rule is specified against the reference model in [`model`]
//! and proved to follow it.

pub mod classify;
pub mod error;
pub mod laws;
pub mod lexer;
pub mod model;
pub mod sym_table;
pub mod token;
