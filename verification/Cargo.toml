[package]
name = "himalayan_tokenization"
version = "0.4.0"
edition = "2021"
publish = false

[dependencies]
unicode-normalization = "0.1"
pyo3 = { version = "0.23", features = ["abi3-py38", "extension-module"] }
