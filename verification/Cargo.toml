[package]
name = "lzallright"
version = "0.2.2"
edition = "2021"
publish = false

[dependencies]
pyo3 = { version = "0.23", features = ["abi3-py38"] }
