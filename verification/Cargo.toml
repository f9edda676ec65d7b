[package]
name = "iptsdb"
version = "0.1.0"
edition = "2021"
publish = false

[dependencies]
chrono = "0.4"
clap = "2"
futures = "0.3"
ipfs-api = "=0.13.0"
prettytable-rs = "0.10"
serde = { version = "1", features = ["derive"] }
serde_cbor = "0.11"
serde_json = "1"
tokio = { version = "1", features = ["full"] }
