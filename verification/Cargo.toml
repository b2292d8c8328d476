[package]
name = "ta_algo"
version = "0.1.0"
edition = "2021"
publish = false

[dependencies]
num-traits = "*"
rayon = "*"
thiserror = "*"
pyo3 = "*"
numpy = "*"
