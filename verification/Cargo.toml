[package]
name = "certified_assets"
version = "0.1.0"
edition = "2021"
publish = false

[dependencies]
ic-certified-map = "0.3"
serde = { version = "1", features = ["derive"] }
serde_bytes = "0.11"
serde_cbor = "0.11"
base64 = "0.13"
sha2 = "0.10"
ic-cdk = "0.5"
ic-cdk-macros = "0.5"
num-traits = "0.2"
candid = "0.7"
