[package]
name = "pygxml"
version = "0.1.0"
edition = "2021"

[dependencies]
quick-xml = "0.37"
memchr = "2"
smallvec = "1"
pyo3 = { version = "0.27", features = ["abi3-py311", "extension-module"] }
