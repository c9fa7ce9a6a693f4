//! The runtime: names, syntax, analysis, evaluation and transactions.

pub mod actors;
pub mod ast;
pub mod def_actor;
pub mod interner;
pub mod interpreter;
pub mod limits;
pub mod manager;
pub mod parser;
pub mod semantic_analysis;
pub mod table;
pub mod text;
pub mod tt;
pub mod txn;
