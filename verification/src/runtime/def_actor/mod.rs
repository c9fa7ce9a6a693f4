//! Definitions that follow changes.

pub mod state;
