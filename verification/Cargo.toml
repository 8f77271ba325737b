[package]
name = "minibpe"
version = "0.1.0"
edition = "2021"
publish = false

[dependencies]
fancy-regex = "*"
pyo3 = "*"
