[package]
name = "resplix_cdc"
version = "0.1.0"
edition = "2021"
publish = false

[dependencies]
blake3 = "1"
memmap2 = "0.9"
serde = { version = "1", features = ["derive"] }
toml = "0.8"
