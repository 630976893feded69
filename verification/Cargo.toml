[package]
name = "crustydb"
version = "0.1.0"
edition = "2021"
publish = false

[dependencies]
dashmap = "6"
log = "0.4"
serde = { version = "1", features = ["derive"] }
serde_cbor = "0.11"
