[package]
name = "trading-server"
version = "0.1.0"
edition = "2021"
publish = false

[dependencies]
crc32fast = "=1.5.4"
rustc-hash = "=2.1.3"
sha2 = "=0.10.9"
crossbeam-channel = "=0.5.17"
parking_lot = "=0.12.5"
hdrhistogram = { version = "=7.6.0", default-features = false }
thiserror = "=1.0.69"
anyhow = "=1.0.104"
tracing = "=0.1.44"
tracing-subscriber = { version = "=0.3.23", features = ["env-filter"] }
tokio = { version = "=1.54.1", features = ["sync", "rt-multi-thread", "macros", "net", "time"] }
core_affinity = "=0.8.3"
serde = { version = "=1.0.229", features = ["derive"] }
serde_json = "=1.0.154"
tokio-tungstenite = "*"
futures-util = { version = "0.3", features = ["sink"] }
http = "1"
