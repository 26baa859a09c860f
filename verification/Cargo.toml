[package]
name = "transcoder"
version = "0.1.0"
edition = "2021"
publish = false

[dependencies]
comrak = { version = "=0.47.0", default-features = false }
tiktoken-rs = "=0.12.1"
