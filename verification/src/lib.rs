//! A persistent key-value store: an append-only log format, the in-memory
//! store it rebuilds, and the line protocol that the server and the client
//! speak.
pub mod error;
pub mod text;
pub mod protocol;
pub mod log;
pub mod storage;
pub mod server;
pub mod client;
