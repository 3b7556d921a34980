[package]
name = "mer3ly_site"
version = "0.1.0"
edition = "2021"
publish = false

[dependencies]
serde = { version = "1", features = ["derive"] }
serde_json = "1"
toml = "0.5"
sha2 = "0.10"
regex = "1"
