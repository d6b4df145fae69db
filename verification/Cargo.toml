[package]
name = "matchmaker"
version = "1.0.0"
edition = "2021"
publish = false

[dependencies]
axum = "0.7"
dashmap = "6"
dotenvy = "0.15"
serde = { version = "1", features = ["derive"] }
serde_json = "1"
tokio = { version = "1", features = ["full"] }
tokio-util = "0.7"
tracing = "0.1"
tracing-subscriber = { version = "0.3", features = ["env-filter"] }
uuid = { version = "1", features = ["v4", "serde"] }
