[package]
name = "carry_costs"
version = "0.1.0"
edition = "2021"
publish = false

[dependencies]
ahash = "0.8"
anyhow = "1"
indexmap = "2"
jiff = { version = "0.2", features = ["tzdb-bundle-always"] }
log = "0.4"
pyo3 = { version = "*", features = ["abi3-py310", "indexmap"] }
rust_decimal = "1"
