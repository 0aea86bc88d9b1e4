[package]
name = "xandikos"
version = "0.1.0"
edition = "2021"
publish = false

[dependencies]
glob = "0.3"
pyo3 = { version = "0.23", features = ["extension-module"] }
