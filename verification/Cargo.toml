[package]
name = "rosbridge_server_rs"
version = "0.1.0"
edition = "2021"
publish = false

[dependencies]
anyhow = "1"
base64 = "0.22"
chrono = "0.4"
ciborium = "0.2"
clap = { version = "4", features = ["derive"] }
futures-util = "0.3"
glob = "0.3"
libloading = "0.8"
png = "0.17"
r2r_rcl = "*"
serde = { version = "1", features = ["derive"] }
serde_json = "1"
tokio = { version = "1", features = ["full"] }
tokio-tungstenite = "0.24"
toml = "0.8"
tracing = "0.1"
tracing-appender = "0.2"
tracing-subscriber = { version = "0.3", features = ["env-filter", "chrono"] }
uuid = { version = "1", features = ["v4"] }
