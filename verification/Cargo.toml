[package]
name = "ctoml"
version = "0.1.0"
edition = "2021"
publish = false

[dependencies]
serde_json = "1"
toml = { version = "0.8", features = ["preserve_order"] }
