//! Evaluation of expressions and execution of statements.

pub mod evaluator;
pub mod executor;
pub mod laws;
