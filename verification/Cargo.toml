[package]
name = "bitr"
version = "0.1.0"
edition = "2021"
publish = false

[dependencies]
bitvec = "0.20"
ring = "0.17"
tokio = { version = "1", features = ["full"] }
reqwest = { version = "0.11", default-features = false, features = ["blocking", "rustls-tls"] }
serde = { version = "1", features = ["derive"] }
serde_derive = "1"
serde_bencode = "0.2"
serde_bytes = "0.11"
