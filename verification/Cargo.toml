[package]
name = "drasi_comms"
version = "0.1.0"
edition = "2021"
publish = false

[dependencies]
anyhow = "1"
async-trait = "0.1"
axum = "0.7"
bytes = "1"
chrono = "0.4"
env_logger = "0.11"
futures = "0.3"
log = "0.4"
redis = { version = "0.27", features = ["tokio-comp", "streams"] }
reqwest = { version = "0.12", default-features = false, features = ["json", "stream"] }
serde = { version = "1", features = ["derive"] }
serde_json = "1"
tokio = { version = "1", features = ["full"] }
