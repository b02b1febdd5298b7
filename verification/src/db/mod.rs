//! Persistent storage of keys and values.

pub mod rocksdb;
