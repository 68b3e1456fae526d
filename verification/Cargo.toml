[package]
name = "rhizo_core"
version = "0.1.0"
edition = "2021"
publish = false

[dependencies]
blake3 = "1"
fs2 = "0.4"
serde = { version = "1", features = ["derive"] }
serde_json = "1"
thiserror = "1"
uuid = { version = "1", features = ["v4"] }
