[package]
name = "whitelist_tokenizer_rs"
version = "0.1.0"
edition = "2021"
publish = false

[dependencies]
anyhow = "1"
pyo3 = { version = "*", features = ["abi3-py38", "extension-module"] }
rayon = "1"
regex = "1"
