[package]
name = "filecast"
version = "0.1.0"
edition = "2021"
publish = false

[dependencies]
chrono = "*"
path-absolutize = "*"
anyhow = "*"
async-channel = "*"
async-tungstenite = { version = "*", features = ["tokio-runtime"] }
axum = { version = "*", features = ["ws"] }
dotenv = "*"
futures-util = "*"
log = "*"
log4rs = "*"
notify = "*"
tokio = { version = "*", features = ["full"] }
