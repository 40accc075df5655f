[package]
name = "notevault"
version = "0.1.0"
edition = "2021"
publish = false

[dependencies]
regex = "1"
serde_yaml = "0.9"
chrono = "0.4"
serde = { version = "1", features = ["derive"] }
serde_json = "1"
rusqlite = { version = "*", features = ["bundled"] }
walkdir = "2"
thiserror = "1"
