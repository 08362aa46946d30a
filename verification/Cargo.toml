[package]
name = "que"
version = "0.1.0"
edition = "2021"
publish = false

[dependencies]
wat = "=1.263.0"
wasmtime = "=46.0.3"
