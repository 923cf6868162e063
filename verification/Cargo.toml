[package]
name = "bn-normalize-rs"
version = "0.1.0"
edition = "2021"
publish = false

[dependencies]
once_cell = "1"
pyo3 = "0.23"
