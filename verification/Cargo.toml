[package]
name = "merkle"
version = "0.1.0"
edition = "2021"
publish = false

[dependencies]
blake3 = "*"
serde = { version = "*", features = ["derive"] }
