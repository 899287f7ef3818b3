[package]
name = "agent_toolkit"
version = "0.1.0"
edition = "2021"
publish = false

[dependencies]
anyhow = "1"
axum = "0.8"
fastembed = { version = "5", default-features = false, features = ["ort-load-dynamic", "hf-hub-rustls-tls"] }
metrics = "0.24"
metrics-exporter-prometheus = { version = "0.17", default-features = false }
reqwest = { version = "0.12", default-features = false, features = ["json", "rustls-tls"] }
rusqlite = { version = "0.37", features = ["bundled"] }
serde = { version = "1", features = ["derive"] }
serde_json = "1"
sqlite-vec = "0.1"
tokio = { version = "1", features = ["rt-multi-thread", "macros", "sync", "time", "net"] }
toml = "0.8"
tower-http = { version = "0.6", features = ["cors", "trace"] }
tracing = "0.1"
tracing-subscriber = { version = "0.3", features = ["env-filter"] }
uuid = { version = "1", features = ["v4"] }
