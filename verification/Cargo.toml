[package]
name = "rami"
version = "0.1.0"
edition = "2021"
publish = false

[dependencies]
linked-hash-map = "0.5"
libloading = "0.6"
serde_json = "1"
