//! The core of the Meerkat distributed reactive language: syntax, static
//! analysis, evaluation, transactions and the wire codec.

pub mod error;
pub mod net;
pub mod node;
pub mod runtime;
