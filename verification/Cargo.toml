[package]
name = "hypergrab"
version = "0.1.0"
edition = "2021"
publish = false

[dependencies]
anyhow = "1"
axum = "0.8"
dirs = "6"
futures = "0.3"
reqwest = { version = "0.12", features = ["blocking", "stream"] }
serde = { version = "1", features = ["derive"] }
serde_json = "1"
tokio = { version = "1", features = ["full"] }
url = "2"
