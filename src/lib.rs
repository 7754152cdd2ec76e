//! An in-memory key-value server core speaking RESP: a resumable byte-stream
//! decoder, a command decoder, and a store with lazy per-key expiry.

pub mod buffer;
pub mod decimal;
pub mod model;
pub mod resp;
pub mod command;
pub mod store;
pub mod server;
