[package]
name = "bedrock_backup"
version = "0.1.0"
edition = "2021"
publish = false

[dependencies]
chrono = "*"
clap = { version = "*", features = ["derive"] }
futures = "*"
humantime = "*"
tokio = { version = "*", features = ["full"] }
tokio-stream = "*"
