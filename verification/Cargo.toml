[package]
name = "tauri_plugin_shared_buffer"
version = "0.1.0"
edition = "2021"
publish = false

[dependencies]
serde = { version = "=1.0.229", features = ["derive"] }
serde_json = "=1.0.154"
thiserror = "=2.0.21"
log = "=0.4.35"
duckdb = { version = "=1.20000.1", default-features = false }
arrow-ipc = { version = "=60.1.0", default-features = false }
webview2-com = "=0.39.1"
windows-core = "=0.62.2"
