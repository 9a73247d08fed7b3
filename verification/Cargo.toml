[package]
name = "textlog"
version = "0.1.0"
edition = "2021"
publish = false

[dependencies]
smartstring = "1.0"
serde = { version = "1.0", features = ["derive"] }
serde-wasm-bindgen = "*"
wasm-bindgen = "0.2"
