[package]
name = "ralarm"
version = "0.1.0"
edition = "2021"
publish = false

[dependencies]
chrono = "0.4"
rodio = { version = "0.20", default-features = false }
