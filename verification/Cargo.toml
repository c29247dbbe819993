[package]
name = "rust_exercises"
version = "0.1.0"
edition = "2021"
publish = false

[dependencies]
rand = "0.9"
rangemap = { version = "1", features = ["serde1"] }
regex = "1"
serde = { version = "1", features = ["derive"] }
serde_derive = "1"
serde_json = "1"
thiserror = "2"
time = { version = "0.3", features = ["serde"] }
