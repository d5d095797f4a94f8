[package]
name = "splatcad"
version = "0.1.0"
edition = "2021"
publish = false

[dependencies]
chrono = { version = "0.4", default-features = false, features = ["std", "now", "serde"] }
derivative = "2"
futures = "0.3"
generic_error = "*"
nonvolatile = "*"
once_cell = "1"
serde = { version = "1", features = ["derive"] }
serde_cbor = "0.11"
serde_json = "1"
sled = "0.34"
tokio = { version = "1", features = ["fs", "rt", "rt-multi-thread", "macros"] }
walkdir = "2"
xxhash-rust = { version = "0.8", features = ["xxh3"] }
