[package]
name = "dtr"
version = "0.1.0"
edition = "2021"
publish = false

[dependencies]
regex = "1"
pyo3 = { version = "0.21", features = ["extension-module"] }
