[package]
name = "cached_compression"
version = "0.1.0"
edition = "2021"
publish = false

[dependencies]
dashmap = "=6.2.1"
flate2 = { version = "=1.1.10", default-features = false, features = ["zlib-rs"] }
rocket = "=0.5.2"
