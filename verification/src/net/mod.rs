//! The network side of the runtime.

pub mod actor;
pub mod ast;
pub mod codec;
pub mod laws;
pub mod messages;
pub mod mock;
pub mod types;
pub mod wire;
