[package]
name = "fanova_core"
version = "0.1.0"
edition = "2021"
publish = false

[dependencies]
fanova = "*"
js-sys = "*"
serde-wasm-bindgen = "*"
wasm-bindgen = "*"
