//! A small expression language: a tokenizer, a recursive-descent parser and a
//! tree-walking evaluator over a persistent environment of variables.
//!
//! Numbers are IEEE 754 double-precision values, carried as their 64-bit
//! patterns. Arithmetic on them, the reading of decimal literals, and the
//! console are supplied by the caller as a host function.

pub mod text;
pub mod lexer;
pub mod number;
pub mod value;
pub mod parser;
pub mod host;
pub mod semantics;
pub mod interpreter;
pub mod program;
pub mod laws;
