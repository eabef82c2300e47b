[package]
name = "fathers"
version = "0.2.1"
edition = "2021"
publish = false

[dependencies]
rusqlite = "*"
serde = { version = "1", features = ["derive"] }
serde_json = "1"
sha2 = "0.10"
