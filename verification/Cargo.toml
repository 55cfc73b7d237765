[package]
name = "nudb"
version = "0.1.0"
edition = "2021"

[dependencies]
xxhash-rust = { version = "0.8", features = ["xxh64"] }
