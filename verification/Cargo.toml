[package]
name = "bencodex"
version = "0.1.0"
edition = "2021"
publish = false

[dependencies]
base64 = "*"
hex = "*"
serde_json = "*"
clap = { version = "*", features = ["derive"] }
