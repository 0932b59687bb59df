[package]
name = "zelkova"
version = "0.1.0"
edition = "2021"
publish = false

[dependencies]
dirs = "=7.0.0"
unicode-width = "=0.2.3"
serde = { version = "=1.0.229", features = ["derive"] }
toml = "=1.1.8"
uuid = { version = "1", features = ["v4"] }
