[package]
name = "jk"
version = "0.1.0"
edition = "2021"
publish = false

[dependencies]
toml = "=1.1.8"
time = { version = "=0.3.55", features = ["local-offset"] }
unicode-width = "=0.2.3"
serde = "1"
