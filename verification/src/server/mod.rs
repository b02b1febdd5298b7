//! The RESP wire protocol and the handling of client commands.

pub mod protocol;
pub mod connection;
pub mod parse_laws;
