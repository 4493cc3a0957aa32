[package]
name = "scriptbox"
version = "0.1.0"
edition = "2021"
publish = false

[dependencies]
anyhow = "1"
brush-parser = "*"
rustix = { version = "1", features = ["fs", "process"] }
sha2 = "0.10"
