[package]
name = "synap_server"
version = "0.1.0"
edition = "2021"
publish = false

[dependencies]
lz4 = "=1.28.1"
zstd = "=0.13.4"
crc32fast = "=1.5.4"
uuid = { version = "=1.29.0", features = ["v4"] }
rand = "=0.8.8"
sha2 = "=0.10.9"
hex = "=0.4.3"
base64 = "=0.22.1"
serde = { version = "=1.0.229", features = ["derive"] }
serde_json = "=1.0.154"
serde_yaml = "0.9"
thiserror = "=1.0.69"
anyhow = "=1.0.104"
axum = "=0.7.9"
geohash = "0.13"
