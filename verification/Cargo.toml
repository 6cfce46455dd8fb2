[package]
name = "triplclust_rs"
version = "0.1.0"
edition = "2021"
publish = false

[dependencies]
rustc-hash = "2"
kodama = "0.3"
kiddo = "5"
faer = "0.22"
numpy = "0.23"
pyo3 = "0.23"
