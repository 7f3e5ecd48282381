[package]
name = "sokoban-utils"
version = "0.1.0"
edition = "2021"
publish = false

[dependencies]
csv = "1"
js-sys = "0.3"
rayon = "1"
wasm-bindgen = "0.2"
