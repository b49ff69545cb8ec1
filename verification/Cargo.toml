[package]
name = "lobby_server"
version = "0.1.0"
edition = "2021"
publish = false

[dependencies]
anyhow = "*"
rand = "*"
rmp-serde = "*"
serde = { version = "*", features = ["derive"] }
serde_json = "*"
socket2 = "*"
tokio = { version = "*", features = ["full"] }
tracing = "*"
tracing-subscriber = "*"
uuid = { version = "*", features = ["v4"] }
