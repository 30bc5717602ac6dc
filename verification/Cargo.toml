[package]
name = "kvtier"
version = "0.1.0"
edition = "2021"
publish = false

[dependencies]
blake3 = "1"
memmap2 = "0.9"
tokio = { version = "1", features = ["io-util", "macros", "net", "rt-multi-thread", "sync", "time"] }
pyo3 = { version = "*", features = ["abi3-py39", "extension-module"] }
