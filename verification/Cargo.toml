[package]
name = "meerkat"
version = "0.1.0"
edition = "2021"
publish = false

[dependencies]
anyhow = "1"
clap = { version = "4", features = ["derive"] }
directories = "*"
env_logger = "*"
futures = "0.3"
kameo = "*"
libp2p = { version = "=0.55.0", default-features = false, features = ["tokio", "tcp", "dns", "noise", "yamux", "websocket", "relay", "identify", "macros"] }
libp2p-stream = "=0.3.0-alpha"
log = "0.4"
rustyline = "*"
serde = { version = "1", features = ["derive"] }
serde_json = "1"
tokio = { version = "1", features = ["full"] }
