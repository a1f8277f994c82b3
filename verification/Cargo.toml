[package]
name = "chatwire"
version = "0.1.0"
edition = "2021"
publish = false

[dependencies]
uuid = { version = "*", features = ["v4"] }
chrono = "*"
tokio = { version = "*", features = ["full"] }
rand = "*"
