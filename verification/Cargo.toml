[package]
name = "psffs"
version = "0.1.0"
edition = "2021"
publish = false

[dependencies]
anyhow = "1"
axum = "=0.5.17"
chrono = "0.4"
http-body = "=0.4.6"
serde = { version = "1", features = ["derive"] }
serde_json = "1"
tokio = { version = "1", features = ["rt-multi-thread", "macros", "signal"] }
tower-http = { version = "=0.3.5", features = ["fs"] }

[dev-dependencies]
percent-encoding = "2"
