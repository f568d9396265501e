[package]
name = "wiki"
version = "0.1.0"
edition = "2021"
publish = false

[dependencies]
regex = "1"
serde = { version = "1", features = ["derive"] }
serde_json = "1"
serde_yaml = "0.9"
anyhow = "1"
chrono = "0.4"
uuid = { version = "1", features = ["v4"] }
dirs = "5"
glob = "0.3"
toml = "0.8"
