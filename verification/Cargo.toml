[package]
name = "matching_engine"
version = "0.1.0"
edition = "2021"
publish = false

[dependencies]
tokio = { version = "*", features = ["full"] }
tracing = "*"
tracing-subscriber = { version = "*", features = ["env-filter"] }
metrics-exporter-prometheus = "*"
futures = "*"
serde = { version = "*", features = ["derive"] }
chrono = { version = "*", features = ["serde"] }
