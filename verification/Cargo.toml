[package]
name = "sensor_gateway"
version = "0.1.0"
edition = "2021"
publish = false

[dependencies]
axum = "0.7"
tokio = { version = "1", features = ["full"] }
ctrlc = "3"
serde = { version = "1", features = ["derive"] }
serde_json = "1"
hotaru = "*"
