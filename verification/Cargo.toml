[package]
name = "ic_dev_kit_rs"
version = "0.1.0"
edition = "2021"
publish = false

[dependencies]
candid = "=0.10.37"
candle-core = "=0.11.0"
canistergeek_ic_rust = "=0.6.0"
ic-cdk = "=0.20.3"
ic-stable-structures = "=0.7.2"
serde = { version = "=1.0.229", features = ["derive"] }
serde_json = "=1.0.151"
thiserror = "=2.0.21"
