[package]
name = "demiurge"
version = "0.1.0"
edition = "2021"
publish = false

[dependencies]
arc-swap = "1"
aya = "0.13"
blake3 = { version = "1", default-features = false, features = ["std", "pure"] }
io-uring = "0.7"
libc = "0.2"
serde = { version = "1", features = ["derive"] }
serde_json = "1"
