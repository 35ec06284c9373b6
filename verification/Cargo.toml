[package]
name = "i3s-schema"
version = "0.1.0"
edition = "2021"
publish = false

[dependencies]
anyhow = "1"
clap = { version = "4", features = ["derive"] }
regex = "1"
regex-syntax = "0.8"
serde = "1"
serde_json = "1"
