[package]
name = "miasma"
version = "0.1.0"
edition = "2021"
publish = false

[dependencies]
anyhow = "1"
async-compression = { version = "0.4", features = ["tokio", "gzip"] }
async-stream = "0.3"
axum = "0.8"
bytes = "1"
colored = "3"
futures = "0.3"
reqwest = { version = "0.12", features = ["gzip", "json", "stream"] }
serde = { version = "1", features = ["derive"] }
tokio = { version = "1", features = ["full"] }
tokio-util = { version = "0.7", features = ["io"] }
url = "2"
