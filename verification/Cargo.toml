[package]
name = "accumulo_access"
version = "0.1.0"
edition = "2021"
publish = false

[dependencies]
serde_json = "=1.0.154"
thiserror = "=1.0.69"
cached = "=0.51.4"
pest = "=2.9.4"
pest_derive = "=2.9.4"
wasm-bindgen = "=0.2.129"
js-sys = "=0.3.106"
