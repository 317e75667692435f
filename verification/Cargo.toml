[package]
name = "memory_system_v2"
version = "0.2.0"
edition = "2021"
publish = false

[dependencies]
anyhow = "1"
axum = "=0.7.9"
chrono = { version = "=0.4.45", default-features = false, features = ["std", "clock", "serde"] }
clap = { version = "4", features = ["derive"] }
crossbeam-channel = "0.5"
dashmap = "=5.5.3"
parking_lot = "0.12"
reqwest = { version = "0.12", default-features = false, features = ["json", "rustls-tls"] }
rusqlite = "=0.31.0"
serde = { version = "1", features = ["derive"] }
serde_json = "1"
sled = "=0.34.7"
thiserror = "1"
tokio = { version = "1", features = ["full"] }
tracing = "0.1"
tracing-subscriber = "0.3"
uuid = { version = "=1.29.0", features = ["v4"] }
