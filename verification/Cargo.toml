[package]
name = "bittorrent"
version = "0.1.0"
edition = "2021"
publish = false

[dependencies]
anyhow = "1"
hex = "0.4"
rand = "0.8"
reqwest = { version = "0.12", default-features = false }
sha1 = "0.10"
tokio = { version = "1", features = ["full"] }
walkdir = "2"
