[package]
name = "vpack_engine"
version = "0.1.0"
edition = "2021"
publish = false

[dependencies]
bincode = "=1.3.3"
fastembed = { version = "=7.5.0", default-features = false, features = ["ort-load-dynamic", "hf-hub-rustls-tls"] }
napi = "=2.16.17"
napi-derive = "=2.16.13"
once_cell = "=1.21.4"
serde = { version = "=1.0.229", features = ["derive"] }
serde_json = "=1.0.154"
thiserror = "=1.0.69"
