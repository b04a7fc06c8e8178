[package]
name = "crdts"
version = "0.1.0"
edition = "2021"
publish = false

[dependencies]
uhlc = "0.8"
uuid = { version = "1", features = ["v4"] }
serde = { version = "1", features = ["derive"] }
bincode = "1"
tokio = { version = "1", features = ["full"] }
tokio-stream = { version = "0.1", features = ["sync"] }
tonic = "0.14"
tonic-prost = "0.14"
prost = "0.14"
