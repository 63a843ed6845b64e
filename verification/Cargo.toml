[package]
name = "trixel"
version = "0.1.0"
edition = "2021"
publish = false

[dependencies]
image = { version = "0.25", default-features = false, features = ["png"] }
imageproc = { version = "0.25", default-features = false }
palette = "0.7"
thiserror = "2"
wasm-bindgen = "0.2"
