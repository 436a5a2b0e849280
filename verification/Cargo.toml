[package]
name = "declconf"
version = "0.1.0"
edition = "2021"
publish = false

[dependencies]
sha2 = "0.10"
serde = { version = "1", features = ["derive"] }
serde_yaml = "0.9"
toml = "0.8"
rmp-serde = "1"
walkdir = "2"
serde_with = "3"
