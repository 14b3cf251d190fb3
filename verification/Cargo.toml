[package]
name = "ld2450_proto"
version = "0.2.0"
edition = "2021"
publish = false

[dependencies]
anyhow = "1"
clap = { version = "4", features = ["derive"] }
libm = "0.2"
serde = { version = "1", features = ["derive"] }
serde_json = "1"
serialport = { version = "4", default-features = false }
tokio = { version = "1", features = ["full"] }
tokio-serial = { version = "5", default-features = false }
toml = "0.8"
tracing = "0.1"
