//! An in-memory key-value server core: the wire codec, a store whose keys
//! may expire, the command handlers that work on them, and the step that
//! serves the bytes a connection has received.
pub mod bytes;
pub mod decimal;
pub mod resp;
pub mod table;
pub mod schedule;
pub mod memory;
pub mod expiry_manager;
pub mod role;
pub mod cli;
pub mod command;
pub mod handlers;
pub mod registry;
pub mod server;
pub mod laws;
