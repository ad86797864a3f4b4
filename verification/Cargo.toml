[package]
name = "spinningjenny"
version = "0.1.0"
edition = "2021"
publish = false

[dependencies]
crossbeam-channel = "0.5"
rayon = "1"
pyo3 = "*"
