[package]
name = "lsert"
version = "0.1.0"
edition = "2021"
publish = false

[dependencies]
redis = "*"
serde_json = "1"
tiny_http = "0.12"
xml-rs = "0.8"
