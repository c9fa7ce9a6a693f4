//! Static analysis.

pub mod typecheck;
pub mod var_analysis;
