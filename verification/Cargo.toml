[package]
name = "lyrictime"
version = "0.1.0"
edition = "2021"
publish = false

[dependencies]
futures-util = "0.3"
reqwest = { version = "0.13", default-features = false, features = ["stream"] }
serde = { version = "1", features = ["derive"] }
serde_json = "1"
tauri = { version = "2", default-features = false, features = ["wry"] }
tauri-plugin-dialog = "2"
