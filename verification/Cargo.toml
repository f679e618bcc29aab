[package]
name = "suda_core"
version = "0.1.0"
edition = "2021"
publish = false

[dependencies]
hashbrown = "0.15"
rand = "0.8"
rand_xorshift = "0.3"
rayon = "1"
numpy = "0.23"

[dependencies.pyo3]
version = "0.23"
features = ["extension-module", "abi3-py39"]
