[package]
name = "sbpl_pso"
version = "0.1.0"
edition = "2021"
publish = false

[dependencies]
argmin = { version = "0.10", default-features = false }
argmin-math = { version = "0.4", features = ["vec"] }
csv = "1"
pyo3 = { version = "0.24", features = ["abi3-py38", "extension-module"] }
rand = { version = "0.9", default-features = false, features = ["std", "small_rng"] }
rayon = "1"
serde = { version = "1", features = ["derive"] }
