[package]
name = "sat_sight"
version = "0.1.0"
edition = "2021"
publish = false

[dependencies]
csv = "1"
image = { version = "0.24", default-features = false, features = ["png", "jpeg"] }
serde = { version = "1", features = ["derive"] }
