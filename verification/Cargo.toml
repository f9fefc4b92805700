[package]
name = "peer_cluster"
version = "0.1.0"
edition = "2021"
publish = false

[dependencies]
serde_json = { version = "=1.0.154", features = ["float_roundtrip"] }
rand = "=0.8.8"
tokio = { version = "=1.54.1", features = ["full"] }
sysinfo = "=0.29.11"
steganography = "=1.0.2"
