[package]
name = "vcp_witness"
version = "0.1.0"
edition = "2021"
publish = false

[dependencies]
num-bigint = "=0.4.8"
num-traits = "=0.2.19"
serde = { version = "=1.0.229", features = ["derive"] }
serde_derive = "=1.0.229"
serde_json = "=1.0.151"
toml = "=0.8.23"
clap = { version = "=4.6.7", features = ["derive"] }
