[package]
name = "fmc_protocol"
version = "0.1.0"
edition = "2021"
publish = false

[dependencies]
bevy = { version = "=0.13.2", default-features = false }
bincode = "=1.3.3"
crossbeam-channel = "=0.5.17"
glam = { version = "=0.25.0", features = ["serde"] }
serde = { version = "=1.0.229", features = ["derive"] }
tokio = { version = "=1.54.1", features = ["rt-multi-thread", "net", "io-util", "sync"] }
