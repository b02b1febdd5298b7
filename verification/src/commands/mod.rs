//! Command implementations for all supported Redis data types.
//!
//! Modules:
//! - `string`: String commands (GET, SET, INCR, etc.)
//! - `list`: List commands (LPUSH, RPUSH, LRANGE, etc.)
//! - `set`: Set commands (SADD, SREM, SMEMBERS, etc.)
//! - `zset`: Sorted set commands (ZADD, ZRANGE, etc.)
//! - `hash`: Hash commands (HSET, HGET, HGETALL, etc.)

pub mod args;
pub mod string;
pub mod hash;
pub mod set;
pub mod list;
pub mod zset;
pub mod executor;
