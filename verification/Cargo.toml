[package]
name = "injector"
version = "0.1.0"
edition = "2021"
publish = false

[dependencies]
chrono = "*"
uuid = { version = "*", features = ["v4"] }
axum = "*"
tokio = { version = "*", features = ["rt-multi-thread", "net", "macros"] }
serde = { version = "*", features = ["derive"] }
serde_json = "*"
