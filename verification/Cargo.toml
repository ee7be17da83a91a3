[package]
name = "aurora_tlk_explorer"
version = "1.1.0"
edition = "2021"
publish = false

[dependencies]
encoding_rs = "0.8"
anyhow = "1"
serde = { version = "1", features = ["derive"] }
serde_json = "1"
directories = "*"
