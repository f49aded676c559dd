[package]
name = "stork_search"
version = "0.1.0"
edition = "2021"
publish = false

[dependencies]
rust-stemmers = "*"
atty = "*"
num-format = "*"
serde = { version = "*", features = ["derive"] }
serde_json = "*"
