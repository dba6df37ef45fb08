[package]
name = "doc_versions"
version = "0.1.0"
edition = "2021"
publish = false

[dependencies]
xpatch = "*"
uuid = { version = "1", features = ["v4"] }
chrono = "0.4"
rusqlite = { version = "*", features = ["bundled"] }
serde = { version = "1", features = ["derive"] }
tauri = { version = "2", default-features = false }
