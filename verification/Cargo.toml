[package]
name = "rectpack"
version = "0.1.0"
edition = "2021"
publish = false

[dependencies]
rand = "0.8"
base64 = "0.22"
serde = "1"
serde_json = "1"
