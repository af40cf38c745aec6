[package]
name = "socketing"
version = "0.1.0"
edition = "2021"
publish = false

[dependencies]
serde = { version = "1", features = ["derive"] }
serde_json = "1"
colored = "2"
once_cell = "1"
axum = "0.7"
tokio = { version = "1", features = ["full"] }
