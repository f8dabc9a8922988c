[package]
name = "octasoma"
version = "0.1.0"
edition = "2021"
publish = false

[dependencies]
lz4_flex = "*"
serde_json = "1"
arc-swap = "1"
tokio = { version = "1", features = ["rt", "sync"] }
pyo3 = { version = "0.23", features = ["extension-module", "abi3-py38"] }
