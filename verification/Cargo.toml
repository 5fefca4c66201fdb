[package]
name = "taqueria"
version = "0.1.0"
edition = "2021"
publish = false

[dependencies]
serde = { version = "*", features = ["derive"] }
serde_json = "*"
log = "*"
env_logger = "*"
uuid = { version = "*", features = ["v4"] }
redis = "*"
