[package]
name = "zk_optimization"
version = "0.1.0"
edition = "2021"
publish = false

[dependencies]
anyhow = "1"
bincode = "=1.3.3"
blake3 = "=1.8.7"
curve25519-dalek = { version = "=4.1.3", features = ["serde"] }
merlin = "=3.0.0"
serde = { version = "1", features = ["derive"] }
serde_bytes = "0.11"
spartan = "=0.9.0"
