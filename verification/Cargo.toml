[package]
name = "matcher_rs"
version = "0.1.0"
edition = "2021"
publish = false

[dependencies]
regex = "=1.13.1"
serde = { version = "=1.0.229", features = ["derive"] }
rapidfuzz = "=0.5.0"
tinyvec = { version = "1", features = ["alloc"] }
ahash = "0.8"
