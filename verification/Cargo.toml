[package]
name = "masking_tool"
version = "0.1.0"
edition = "2021"
publish = false

[dependencies]
lopdf = "=0.32.0"
jpeg-decoder = { version = "=0.3.2", features = ["platform_independent"] }
flate2 = "=1.1.10"
anyhow = "=1.0.104"
wasm-bindgen = "=0.2.130"
serde = { version = "=1.0.229", features = ["derive"] }
serde-wasm-bindgen = "=0.6.5"
console_error_panic_hook = "=0.1.7"
