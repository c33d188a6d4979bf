[package]
name = "log_codec"
version = "0.1.0"
edition = "2021"
publish = false

[dependencies]
alloy-primitives = { version = "=1.7.3", features = ["rlp"] }
alloy-rlp = { version = "=0.3.16", features = ["derive"] }
