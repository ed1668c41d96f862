[package]
name = "mft_scan"
version = "0.1.0"
edition = "2021"
publish = false

[dependencies]
indicatif = "*"
serde = { version = "*", features = ["derive"] }
