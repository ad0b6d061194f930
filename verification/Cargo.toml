[package]
name = "logos_core"
version = "0.1.0"
edition = "2021"
publish = false

[dependencies]
hecs = "*"
petgraph = "*"
rkyv = { version = "0.7", features = ["validation"] }
serde = { version = "1", features = ["derive"] }
serde_json = "1"
clap = { version = "4", features = ["derive"] }
anyhow = "1"
wasm-bindgen = "0.2"
serde-wasm-bindgen = "*"
console_error_panic_hook = "0.1"
