[package]
name = "compare_text"
version = "0.1.0"
edition = "2021"
publish = false

[dependencies]
rustc-hash = "2"
serde = { version = "1", features = ["derive"] }
wasm-bindgen = "0.2"
gloo-utils = "0.2"
pyo3 = "0.22"
