[package]
name = "bencode"
version = "0.1.0"
edition = "2021"
publish = false

[dependencies]
pyo3 = { version = "=0.30.1", features = ["abi3-py311"] }
wasm-bindgen = "=0.2.130"
js-sys = "=0.3.107"
