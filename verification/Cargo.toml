[package]
name = "mosaic"
version = "0.1.0"
edition = "2021"
publish = false

[dependencies]
image = "0.25"
nannou = "0.19"
rand = "0.8"
serde = { version = "1", features = ["derive"] }
serde_json = "1"
