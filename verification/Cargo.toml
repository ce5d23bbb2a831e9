[package]
name = "cleandisk"
version = "0.1.0"
edition = "2021"
publish = false

[dependencies]
chrono = "0.4"
dirs = "6"
fs2 = "0.4"
serde = { version = "1", features = ["derive"] }
serde_json = "1"
sha2 = "0.10"
tauri = { version = "2", default-features = false }
tauri-plugin-dialog = "2"
trash = "5"
uuid = { version = "1", features = ["v4"] }
walkdir = "2"
