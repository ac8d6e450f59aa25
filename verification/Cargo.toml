[package]
name = "giganto"
version = "0.1.0"
edition = "2021"
publish = false

[dependencies]
anyhow = "1"
base64 = "0.13"
bincode = "1"
chrono = "0.4"
data-encoding = "2"
quinn = "0.10"
rustls = "0.21"
serde = { version = "1", features = ["derive"] }
tokio = { version = "1", features = ["full"] }
toml_edit = "0.19"
