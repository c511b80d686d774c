[package]
name = "autonomi"
version = "0.1.0"
edition = "2021"
publish = false

[dependencies]
xor_name = "*"
blsttc = "*"
libp2p = { version = "*", default-features = false }
serde = { version = "*", features = ["derive"] }
wasm-bindgen = "*"
wasm-bindgen-futures = "*"
js-sys = "*"
serde-wasm-bindgen = "*"
console_error_panic_hook = "*"
tracing-subscriber = { version = "*", features = ["env-filter"] }
tracing-web = "*"
tokio = { version = "*", features = ["sync"] }
crossterm = "*"
ratatui = "*"
color-eyre = "*"
