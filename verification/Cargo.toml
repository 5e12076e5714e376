[package]
name = "ik_rs"
version = "0.1.0"
edition = "2021"
publish = false

[dependencies]
unicode-blocks = "*"
serde = { version = "1", features = ["derive"] }
serde_yaml = "*"
