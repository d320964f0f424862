[package]
name = "trej"
version = "0.1.0"
edition = "2021"
publish = false

[dependencies]
jack = "*"
notify = "*"
serde = { version = "*", features = ["derive"] }
toml = "*"
