[package]
name = "evaporchain-execution"
version = "0.1.0"
edition = "2021"
publish = false

[dependencies]
blake3 = "1"
hex = "0.4"
thiserror = "1"
