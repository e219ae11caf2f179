[package]
name = "clem"
version = "0.1.0"
edition = "2021"
publish = false

[dependencies]
pyo3 = "0.23"
rand = "0.8"
rand_distr = "0.4"
