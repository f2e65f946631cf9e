[package]
name = "martian_chess"
version = "0.1.0"
edition = "2021"
publish = false

[dependencies]
rand = "=0.8.8"
wasm-timer = "=0.2.5"
wasm-bindgen = "=0.2.129"
lazy_static = "=1.5.1"
