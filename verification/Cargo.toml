[package]
name = "photo_restamp"
version = "0.1.0"
edition = "2021"
publish = false

[dependencies]
bindet = "*"
chrono = { version = "0.4", default-features = false, features = ["std"] }
img-parts = "*"
serde_json = "1"
