[package]
name = "nafaq"
version = "0.1.0"
edition = "2021"
publish = false

[dependencies]
anyhow = "1"
base64 = "0.22"
blake3 = "1"
image = { version = "0.25", default-features = false, features = ["jpeg"] }
openh264 = "*"
opus = "0.3"
rand = "0.9"
serde = { version = "1", features = ["derive"] }
serde_json = "1"
tokio = { version = "1", features = ["sync", "time", "rt", "macros", "fs", "io-util"] }
tracing = "0.1"
uuid = { version = "1", features = ["v4"] }
