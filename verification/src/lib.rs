//! A Redis-compatible key-value server: the RESP wire protocol, the command
//! set for strings, lists, sets, sorted sets and hashes, and the ordered
//! key-value store they are kept in.

pub mod text;
pub mod db;
pub mod server;
pub mod commands;
pub mod laws;
