[package]
name = "session_recorder"
version = "0.1.0"
edition = "2021"
publish = false

[dependencies]
csv = "*"
chrono = "*"
zip = { version = "*", default-features = false }
