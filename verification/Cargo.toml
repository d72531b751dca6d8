[package]
name = "worterbuch"
version = "0.1.0"
edition = "2021"
publish = false

[dependencies]
anyhow = "1"
dotenv = "0.15"
env_logger = "*"
futures = "0.3"
jsonwebtoken = "9"
log = "0.4"
poem = { version = "*", features = ["websocket"] }
serde = { version = "1", features = ["derive"] }
serde_json = "1"
tokio = { version = "1", features = ["full"] }
tokio-graceful-shutdown = "*"
uuid = { version = "1", features = ["v4"] }
