[package]
name = "mistarr_server"
version = "0.1.0"
edition = "2021"
publish = false

[dependencies]
serde_json = "1"
zip = { version = "=9.2.2", default-features = false }
