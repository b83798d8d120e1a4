[package]
name = "queue_manager"
version = "0.1.0"
edition = "2021"
publish = false

[dependencies]
redis = "*"
ansi_term = "*"

[dev-dependencies]
serde_json = "*"
regex = "*"
