[package]
name = "convoker"
version = "0.1.0"
edition = "2021"
publish = false

[dependencies]
chrono = "=0.4.45"
serde_json = "=1.0.151"
serde = { version = "=1.0.229", features = ["derive"] }
