[package]
name = "chat_core"
version = "0.1.0"
edition = "2021"
publish = false

[dependencies]
chrono = "0.4"
json = "*"
pwhash = "*"
rand = "0.8"
