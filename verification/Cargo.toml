[package]
name = "bartrs"
version = "0.1.0"
edition = "2021"
publish = false

[dependencies]
ndarray = "0.17"
numpy = "0.28"
pyo3 = { version = "0.28", features = ["abi3-py39", "extension-module"] }
rand = { version = "0.9", features = ["small_rng"] }
rand_distr = "0.5"
