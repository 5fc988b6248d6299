[package]
name = "bidder"
version = "0.1.0"
edition = "2021"
publish = false

[dependencies]
alloy = { version = "~1.0", default-features = false, features = ["std"] }
alloy-signer-local = "~1.0"
anyhow = "1"
dotenv = "0.15"
hex = "0.4"
tokio = { version = "1", features = ["time"] }
tonic = "0.12"
tracing = "0.1"
