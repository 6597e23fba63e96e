[package]
name = "chaos"
version = "0.1.0"
edition = "2021"
publish = false

[dependencies]
axum = "*"
serde = { version = "1", features = ["derive"] }
serde_json = "1"
