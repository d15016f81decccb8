[package]
name = "airplane_notifier"
version = "0.1.0"
edition = "2021"
publish = false

[dependencies]
dotenv = "0.15"
haversine = "*"
reqwest = { version = "0.11", features = ["json"] }
serde = { version = "1", features = ["derive"] }
serde_json = "1"
tokio = { version = "1", features = ["full"] }
