[package]
name = "genomics_kernel"
version = "0.1.0"
edition = "2021"
publish = false

[dependencies]
console_error_panic_hook = "0.1"
numpy = "0.20"
pyo3 = "0.20"
rand = "0.8"
rayon = "1"
serde = { version = "1", features = ["derive"] }
serde-wasm-bindgen = "0.6"
wasm-bindgen = "0.2"
web-sys = { version = "0.3", features = ["Window", "Performance"] }
