[package]
name = "oxido"
version = "0.1.0"
edition = "2021"
publish = false

[dependencies]
byteorder = "1"
pyo3 = "0.20"
sodiumoxide = "0.2"
tempfile = "3"
