[package]
name = "schemasniff"
version = "0.1.0"
edition = "2021"
publish = false

[dependencies]
csv = "=1.4.0"
serde = { version = "=1.0.229", features = ["derive"] }
serde_json = { version = "=1.0.154", features = ["preserve_order"] }
wasm-bindgen = "=0.2.130"
serde-wasm-bindgen = "=0.6.5"
console_error_panic_hook = "=0.1.7"
