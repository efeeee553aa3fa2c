[package]
name = "blockdb"
version = "0.1.0"
edition = "2021"
publish = false

[dependencies]
bincode = "1"
ed25519-dalek = "=1.0.1"
rand = "=0.7.3"
serde = { version = "1", features = ["derive"] }
sha2 = "=0.10.9"
uuid = { version = "=1.27.0", features = ["v4"] }
