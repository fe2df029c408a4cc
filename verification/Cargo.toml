[package]
name = "pocket_voice"
version = "0.1.0"
edition = "2021"
publish = false

[dependencies]
hex = "0.4"
sha2 = "0.10"
serde = { version = "1", features = ["derive"] }
serde_json = "1"
ssstretch = "*"
tokio = { version = "1", features = ["rt", "sync"] }
