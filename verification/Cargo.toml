[package]
name = "driftdb"
version = "0.1.0"
edition = "2021"
publish = false

[dependencies]
anyhow = "=1.0.104"
axum = { version = "=0.6.20", features = ["ws"] }
gloo-utils = "=0.1.7"
hyper = "=0.14.32"
serde = { version = "=1.0.229", features = ["derive"] }
serde_json = "=1.0.154"
tokio = { version = "=1.54.1", features = ["macros", "rt-multi-thread", "sync"] }
tower-http = { version = "=0.4.4", features = ["cors", "fs", "trace"] }
tracing = "=0.1.44"
worker = "0.8"
