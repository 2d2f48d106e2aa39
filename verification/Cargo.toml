[package]
name = "little_dipper"
version = "0.1.0"
edition = "2021"
publish = false

[dependencies]
commonware-cryptography = "*"
commonware-utils = "*"
serde = { version = "*", features = ["derive"] }
serde_json = "*"
futures = "*"
bytes = "*"
