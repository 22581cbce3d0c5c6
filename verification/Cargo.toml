[package]
name = "flights"
version = "0.1.0"
edition = "2021"
publish = false

[dependencies]
actix-rt = "=0.2.6"
actix-web = { version = "=1.0.9", default-features = false }
chrono = "=0.4.19"
clap = "=2.34.0"
env_logger = "=0.6.2"
serde = { version = "=1.0.229", features = ["derive"] }
serde_json = "=1.0.154"
sled = "=0.24.1"
