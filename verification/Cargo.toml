[package]
name = "rwkv_router"
version = "0.1.0"
edition = "2021"
publish = false

[dependencies]
axum = "0.8"
base64 = "=0.22.1"
clap = { version = "4", features = ["derive"] }
env_logger = "0.11"
fastrand = "2"
log = "0.4"
napi = { version = "2", default-features = false, features = ["napi4", "serde-json"] }
napi-derive = "2"
pyo3 = { version = "0.26", features = ["abi3-py39"] }
reqwest = { version = "0.12", default-features = false, features = ["json", "stream", "rustls-tls"] }
serde = { version = "1", features = ["derive"] }
serde_json = "=1.0.154"
tokio = { version = "1", features = ["rt-multi-thread", "net", "macros"] }

[dev-dependencies]
half = "=2.7.1"
