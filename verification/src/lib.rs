//! A concrete-syntax-tree parser for a small Lisp-like s-expression notation.
//!
//! The parser turns source text into an ordered forest of typed nodes that
//! preserves every byte of the input through half-open byte-offset ranges.
//! Its behaviour is stated against a mathematical grammar (`grammar` module)
//! and the structural tree invariants are proved in the `laws` module.

pub mod cursor;
pub mod grammar;
pub mod laws;
pub mod node;
