[package]
name = "skytable"
version = "0.3.0"
edition = "2021"
publish = false

[dependencies]
tokio = { version = "1", features = ["io-util", "net"] }
