[package]
name = "waffle"
version = "0.1.0"
edition = "2021"
publish = false

[dependencies]
wasmparser = "0.81"
