[package]
name = "memchunk"
version = "0.1.0"
edition = "2021"
publish = false

[dependencies]
memchr = "2"
wasm-bindgen = "0.2"
