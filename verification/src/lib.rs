//! A front end for a small S-expression language: a lexer that turns bytes
//! into positioned tokens, a recursive-descent parser that turns tokens into
//! syntax trees, and an evaluator that renders a tree against an environment
//! of variable bindings.
//!
//! Every stage is specified by a mathematical model over sequences, and each
//! executable function is proved to compute exactly what its model says.

pub mod error;
pub mod eval;
pub mod laws;
pub mod lexer;
pub mod parser;
pub mod session;
pub mod text;
