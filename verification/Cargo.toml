[package]
name = "quil-node"
version = "0.1.0"
edition = "2021"
publish = false

[dependencies]
anyhow = "1"
async-trait = "0.1"
base64 = "0.22"
bs58 = "0.5"
clap = { version = "4", features = ["derive", "env"] }
ed448-rust = "0.1"
hex = "0.4"
num-bigint = "0.4"
sha2 = "0.10"
tokio = { version = "1", features = ["full"] }
tokio-util = "0.7"
tracing = "0.1"
