[package]
name = "rasterizer"
version = "0.1.0"
edition = "2021"
publish = false

[dependencies]
anyhow = "1"
image = { version = "0.24", default-features = false, features = ["jpeg"] }
itertools = "0.13"
wasm-bindgen = "0.2"
