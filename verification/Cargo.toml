[package]
name = "devourer_core"
version = "0.1.0"
edition = "2021"
publish = false

[dependencies]
serde_json = "=1.0.154"
tauri = { version = "2", default-features = false }
tauri-plugin-http = { version = "2", default-features = false }
unrar = "=0.5.8"
zip = { version = "=2.6.1", default-features = false, features = ["deflate"] }
