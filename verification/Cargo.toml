[package]
name = "dante"
version = "0.1.0"
edition = "2021"
publish = false

[dependencies]
itertools = "0.10"
pyo3 = "0.20"
rand = "0.8"
regex = "1"
