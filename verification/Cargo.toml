[package]
name = "mds"
version = "0.1.0"
edition = "2021"
publish = false

[dependencies]
indexmap = "2"
serde_yaml_ng = "*"
serde = { version = "1", features = ["derive"] }
serde_json = "1"
wasm-bindgen = "0.2"
js-sys = "0.3"
serde-wasm-bindgen = "*"
