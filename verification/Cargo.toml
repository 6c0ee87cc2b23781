[package]
name = "bft_json_crdt"
version = "0.1.0"
edition = "2021"
publish = false

[dependencies]
sha2 = "0.10"
fastcrypto = "*"
rand = "0.8"
serde_json = "1"
