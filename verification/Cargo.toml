[package]
name = "jsonrpc_l7"
version = "0.1.0"
edition = "2021"
publish = false

[dependencies]
hex = "0.4"
miette = "7"
serde_json = "1"
sha2 = "0.10"
tokio = { version = "1", features = ["io-util"] }
