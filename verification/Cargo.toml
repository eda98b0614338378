[package]
name = "jsoncompat"
version = "0.1.0"
edition = "2021"
publish = false

[dependencies]
serde_json = "=1.0.154"

[dev-dependencies]
regex = "=1.13.1"
