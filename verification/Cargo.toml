[package]
name = "lark"
version = "0.1.0"
edition = "2021"
publish = false

[dependencies]
crossbeam-skiplist = "=0.1.3"
lru = { version = "=0.12.5", default-features = false }
parking_lot = "=0.12.5"
rustix = { version = "1", features = ["fs"] }
tracing = { version = "0.1", default-features = false, features = ["std"] }
xxhash-rust = { version = "=0.8.19", features = ["xxh3"] }
