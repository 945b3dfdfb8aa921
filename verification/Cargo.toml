[package]
name = "blockdata"
version = "0.1.0"
edition = "2021"
publish = false

[dependencies]
serde = { version = "*", features = ["derive"] }
serde_json = { version = "*", features = ["preserve_order"] }
clap = { version = "*", features = ["derive"] }
anyhow = "*"
