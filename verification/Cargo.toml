[package]
name = "vajra"
version = "0.1.0"
edition = "2021"
publish = false

[dependencies]
crc32fast = "1"
siphasher = "1"
rand = "0.8"
rand_chacha = "0.3"
smallvec = "1"
bincode = "1"
byteorder = "1"
serde = { version = "1", features = ["derive"] }
serde_json = "1"
toml = "0.8"
anyhow = "1"
thiserror = "1"
tokio = { version = "1", features = ["full"] }
axum = "0.7"
clap = { version = "4", features = ["derive"] }
tracing = "0.1"
tracing-subscriber = { version = "0.3", features = ["env-filter", "json"] }
dashmap = "5"
parking_lot = "0.12"
metrics = "0.22"
metrics-exporter-prometheus = "0.13"
tonic = { version = "0.11", default-features = false }
