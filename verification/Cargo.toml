[package]
name = "attestation_service"
version = "0.1.0"
edition = "2021"
publish = false

[dependencies]
sha2 = "0.10"
anyhow = "1"
tokio = { version = "1", features = ["sync", "rt"] }
async-trait = "0.1"
serde_json = "1"
kbs-types = "*"

[dev-dependencies]
hex = "0.4"
