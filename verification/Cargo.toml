[package]
name = "noah_kv"
version = "0.1.0"
edition = "2021"
publish = false

[dependencies]
tokio = { version = "*", features = ["full"] }
axum = "*"
tower-http = { version = "*", features = ["cors"] }
serde = { version = "*", features = ["derive"] }
tracing = "*"
tracing-subscriber = "*"
