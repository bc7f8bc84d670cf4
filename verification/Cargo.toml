[package]
name = "ruffle"
version = "0.1.0"
edition = "2021"
publish = false

[dependencies]
clap = { version = "4", features = ["derive"] }
libm = "0.2"
pyo3 = { version = "0.26", features = ["abi3-py38"] }
serde = { version = "1", features = ["derive"] }
serde_json = { version = "1", features = ["float_roundtrip"] }
serde-wasm-bindgen = "0.6"
thiserror = "1"
wasm-bindgen = "0.2"

[dev-dependencies]
rand = "0.8"
rand_chacha = "0.3"
rand_distr = "0.4"
