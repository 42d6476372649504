[package]
name = "kowito_json"
version = "0.2.12"
edition = "2021"
publish = false

[dependencies]
itoa = "1"
ryu = "1"
serde = "1"

[dev-dependencies]
serde_json = "1"
