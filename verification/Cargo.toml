[package]
name = "turtle_wa"
version = "0.1.0"
edition = "2021"
publish = false

[dependencies]
http = "*"
colored = "*"
wasm-bindgen = "*"
