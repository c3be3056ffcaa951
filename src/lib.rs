//! An in-memory key-value server's core: the wire codec, the store, the
//! command dispatcher and the per-connection framing step, with the laws
//! that tie them together.

pub mod resp;
pub mod store;
pub mod command;
pub mod session;
pub mod laws;
