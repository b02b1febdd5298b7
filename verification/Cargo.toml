[package]
name = "redisrs"
version = "0.1.0"
edition = "2021"
publish = false

[dependencies]
thiserror = "1"
tokio = { version = "1", features = ["rt-multi-thread", "net", "io-util", "macros", "sync"] }
rocksdb = { version = "0.22", default-features = false }
