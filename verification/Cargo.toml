[package]
name = "ben"
version = "0.1.0"
edition = "2021"
publish = false

[dependencies]
serde_json = "1"
xz2 = "0.1"
