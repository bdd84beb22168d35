[package]
name = "llm_engine"
version = "0.1.0"
edition = "2021"
publish = false

[dependencies]
rand = "0.9"
axum = "0.8"
tokio = { version = "1", features = ["full"] }
tokio-stream = "0.1"
tower-http = { version = "0.6", features = ["cors"] }
futures = "0.3"
serde = { version = "1", features = ["derive"] }
serde_json = "1"
libc = "0.2"
