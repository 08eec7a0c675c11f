[package]
name = "toq_rs"
version = "0.1.0"
edition = "2021"
publish = false

[dependencies]
mdns-sd = "=0.13.11"
serde = { version = "=1.0.229", features = ["derive"] }
serde_json = "=1.0.154"
tokio = { version = "=1.54.1", features = ["full"] }
axum = "=0.8.9"
reqwest = { version = "=0.12.28", default-features = false, features = ["json"] }
clap = { version = "=4.6.7", features = ["derive"] }
