[package]
name = "curius_feed"
version = "0.1.0"
edition = "2021"
publish = false

[dependencies]
tokio = { version = "1", features = ["rt-multi-thread", "macros", "net"] }
axum = "0.8"
deadpool-redis = "0.18"
reqwest = { version = "0.12", default-features = false }
reqwest-middleware = "0.4"
reqwest-retry = "0.7"
serde = { version = "1", features = ["derive"] }
serde_json = "1"
serde_path_to_error = "0.1"
eyre = "0.6"
dotenvy = "0.15"
futures = "0.3"
tracing = "0.1"
tower-http = { version = "0.6", features = ["cors"] }
rss = "2"
chrono = { version = "0.4", features = ["serde"] }
