[package]
name = "exchange_core"
version = "0.1.0"
edition = "2021"
publish = false

[dependencies]
dashmap = "5"
uuid = { version = "1", features = ["v4"] }
chrono = "0.4"
serde = { version = "1", features = ["derive"] }
serde_json = "1"
tokio = { version = "1", features = ["full"] }
axum = { version = "0.7", features = ["ws"] }
futures-util = "0.3"
redis = { version = "0.25", features = ["tokio-comp"] }
jsonwebtoken = "9"
dotenv = "0.15"
metrics = "0.21"
metrics-exporter-prometheus = { version = "0.12", default-features = false }
sysinfo = "0.30"
tower = "0.4"
tower-http = { version = "0.5", features = ["trace"] }
tracing-subscriber = "0.3"
