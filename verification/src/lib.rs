//! A checker for a pure type system with two sorts: terms, types and kinds are one kind
//! of pseudoterm, variables are de Bruijn indices, and types may depend on terms.

pub mod clock;
pub mod inferencer;
pub mod laws;
pub mod normalizer;
pub mod parser;
pub mod term;
