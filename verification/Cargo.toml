[package]
name = "atem-proxy"
version = "0.1.0"
edition = "2021"
publish = false

[dependencies]
anyhow = "1"
bytes = "1"
clap = { version = "4", features = ["derive", "env"] }
hostname = "*"
if-addrs = "*"
indexmap = "2"
mdns-sd = "*"
parking_lot = "0.12"
serde = { version = "1", features = ["derive"] }
thiserror = "*"
tokio = { version = "1", features = ["full"] }
tokio-util = "0.7"
toml = "*"
tracing = "0.1"
tracing-subscriber = { version = "0.3", features = ["env-filter"] }
windows-service = "*"

[dev-dependencies]
hex = "0.4"
