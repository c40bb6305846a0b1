[package]
name = "tickchaos"
version = "0.1.0"
edition = "2021"
publish = false

[dependencies]
bytes = "=1.12.1"
rand = "=0.8.8"
tokio = { version = "=1.54.1", features = ["full"] }
tokio-util = { version = "=0.7.20", features = ["time"] }
futures = "=0.3.34"
socket2 = "=0.5.10"
serde = { version = "=1.0.229", features = ["derive"] }
toml = "=0.8.23"
axum = "=0.7.9"
arc-swap = "=1.9.3"
clap = { version = "=4.6.7", features = ["derive"] }
anyhow = "=1.0.104"
thiserror = "=1.0.69"
tracing = "=0.1.44"
tracing-subscriber = "=0.3.23"
