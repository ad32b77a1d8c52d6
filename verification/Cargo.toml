[package]
name = "mellow"
version = "0.1.0"
edition = "2021"
publish = false

[dependencies]
axum = "*"
redis = "*"
serde = { version = "*", features = ["derive"] }
serde_json = "*"
tokio = { version = "*", features = ["rt-multi-thread", "macros", "time", "net"] }
tokio-stream = { version = "*", features = ["time"] }
