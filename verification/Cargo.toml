[package]
name = "mivar"
version = "0.1.0"
edition = "2021"
publish = false

[dependencies]
js-sandbox = "*"
serde_json = "*"
