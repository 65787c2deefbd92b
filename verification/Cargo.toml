[package]
name = "blog_api"
version = "0.1.0"
edition = "2021"
publish = false

[dependencies]
axum = { version = "*", features = ["multipart"] }
tokio = { version = "*", features = ["full"] }
serde = { version = "*", features = ["derive"] }
serde_json = "*"
jsonwebtoken = "*"
chrono = "*"
uuid = { version = "*", features = ["v4", "serde"] }
dotenvy = "*"
tower-http = { version = "*", features = ["cors"] }
