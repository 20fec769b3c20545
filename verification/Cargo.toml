[package]
name = "socketioxide"
version = "0.1.0"
edition = "2021"
publish = false

[dependencies]
serde_json = "1"
itoa = "1"
rmp = "0.8"
engineioxide = "*"
serde = { version = "1", features = ["derive"] }
bytes = "1"
