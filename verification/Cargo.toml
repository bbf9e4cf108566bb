[package]
name = "shogi_wasm"
version = "0.1.0"
edition = "2021"
publish = false

[dependencies]
clap = { version = "4", features = ["derive"] }
wasm-bindgen = "0.2"
js-sys = "0.3"
rayon = "1"
