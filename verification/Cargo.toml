[package]
name = "opensdts"
version = "0.1.0"
edition = "2021"
publish = false

[dependencies]
serde = { version = "1", features = ["derive"] }
serde_json = "1"
anyhow = "1"
axum = { version = "0.7", features = ["ws"] }
tokio = { version = "1", features = ["full"] }
tower-http = { version = "0.5", features = ["fs"] }
futures-util = { version = "0.3", features = ["sink"] }
btleplug = "0.11"
uuid = "1"
rand = "0.8"
clap = { version = "4", features = ["derive"] }
wasm-bindgen = "0.2"
console_error_panic_hook = "0.1"
