[package]
name = "matching_engine"
version = "0.1.0"
edition = "2021"
publish = false

[dependencies]
anyhow = "*"
crossbeam-channel = "*"
redis = "*"
serde = { version = "1", features = ["derive"] }
serde_json = "1"
toml = "*"
tracing = "*"
tracing-subscriber = "*"
