[package]
name = "ollama_proxy"
version = "0.1.0"
edition = "2021"
publish = false

[dependencies]
serde_json = "1"
serde = { version = "1", features = ["derive"] }
reqwest = { version = "0.12", default-features = false, features = ["stream"] }
axum = "0.8"
tokio = { version = "1", features = ["full"] }
futures-util = "0.3"
async-stream = "0.3"
tracing-subscriber = "0.3"
