[package]
name = "kfnetlist"
version = "0.1.0"
edition = "2021"
publish = false

[dependencies]
indexmap = { version = "2", features = ["serde"] }
pyo3 = { version = "0.25", features = ["abi3-py39", "extension-module"] }
serde = { version = "1", features = ["derive"] }
serde_json = { version = "1", features = ["float_roundtrip"] }
