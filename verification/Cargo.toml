[package]
name = "ferrum_core"
version = "0.1.0"
edition = "2021"
publish = false

[dependencies]
anyhow = "1"
axum = "0.7"
clap = { version = "4", features = ["derive"] }
console_log = "1"
leptos = { version = "0.6", features = ["csr"] }
log = "0.4"
notify = "6"
serde = { version = "1", features = ["derive"] }
serde_json = "1"
thiserror = "1"
tokio = { version = "1", features = ["full"] }
tower = "0.4"
tower-http = { version = "0.5", features = ["cors", "fs"] }
wasm-bindgen = "0.2"
web-sys = { version = "0.3", features = ["Window", "History", "Location"] }
