[package]
name = "irondag"
version = "0.1.0"
edition = "2021"
publish = false

[dependencies]
sha3 = "=0.10.9"
ed25519-dalek = "=2.2.0"
k256 = "=0.13.4"
dashmap = "=6.2.1"
alloy-rlp = "=0.3.17"
serde = { version = "=1.0.229", features = ["derive"] }
toml = "=0.8.23"
bincode = "1"
