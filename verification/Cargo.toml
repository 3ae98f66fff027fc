[package]
name = "xray_core"
version = "0.1.0"
edition = "2021"
publish = false

[dependencies]
futures = "*"
ignore = "*"
serde = { version = "*", features = ["derive"] }
serde_json = "*"
