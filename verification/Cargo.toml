[package]
name = "gestalt"
version = "0.1.0"
edition = "2021"
publish = false

[dependencies]
anyhow = "1"
noise = { version = "0.7", default-features = false }
