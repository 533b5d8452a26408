[package]
name = "memory_cache_rust"
version = "0.1.0"
edition = "2021"
publish = false

[dependencies]
rand = "0.8"
seahash = "4"
xxhash-rust = { version = "*", features = ["xxh3", "const_xxh3"] }
parking_lot = "*"
serde = { version = "1", features = ["derive"] }
serde_json = "1"
ahash = "*"
