[package]
name = "hbbs"
version = "0.1.0"
edition = "2021"
publish = false

[dependencies]
serde = { version = "1", features = ["derive"] }
serde_json = "1"
chrono = "0.4"
uuid = { version = "1", features = ["v4"] }
tokio = { version = "1", features = ["full"] }
notify = "6"
axum = "0.6"
headers = "0.3"
log = "0.4"
env_logger = "0.10"
