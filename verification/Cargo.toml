[package]
name = "rcol"
version = "0.1.0"
edition = "2021"
publish = false

[dependencies]
regex = "1"
csv = "1"
serde_json = "1"
serde_yaml = "0.9"
unicode-width = "*"
