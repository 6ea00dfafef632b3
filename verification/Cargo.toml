[package]
name = "entries"
version = "0.1.0"
edition = "2021"
publish = false

[dependencies]
flate2 = "1"
prost = { version = "*", default-features = false, features = ["std"] }
serde = { version = "1", features = ["derive"] }
serde_json = "1"
dirs = "*"
