[package]
name = "mongodb_ro"
version = "0.1.0"
edition = "2021"
publish = false

[dependencies]
mongodb = "*"
serde = { version = "*", features = ["derive"] }
serde_json = "*"
futures = "*"
futures-util = "*"
log = "*"
