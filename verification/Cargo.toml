[package]
name = "rustpad_client"
version = "0.1.0"
edition = "2021"
publish = false

[dependencies]
operational-transform = { version = "0.6", features = ["serde"] }
bytecount = "0.6"
xi-unicode = "0.3"
serde = { version = "1", features = ["derive"] }
serde_json = "1"
log = "0.4"
parking_lot = "0.12"
futures = "0.3"
futures-channel = "0.3"
tokio = { version = "1", features = ["full"] }
tokio-tungstenite = "0.17"
url = "2"
druid = "0.7"
druid-shell = "0.7"
