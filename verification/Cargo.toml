[package]
name = "chatlib"
version = "0.1.0"
edition = "2021"
publish = false

[dependencies]
chrono = { version = "0.4", default-features = false, features = ["clock"] }
mio = "0.6"
priority-queue = "*"
ws = "0.9"
