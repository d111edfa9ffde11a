[package]
name = "dayz_dev_tools_rust"
version = "0.1.0"
edition = "2021"
publish = false

[dependencies]
memchr = "2"
pyo3 = { version = "0.23", features = ["extension-module"] }
