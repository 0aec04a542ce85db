[package]
name = "ginko"
version = "0.1.0"
edition = "2021"
publish = false

[dependencies]
dunce = "1"
enum-map = "2"
itertools = "*"
parking_lot = "0.12"
serde = { version = "1", features = ["derive"] }
serde_json = "1"
strum = { version = "*", features = ["derive"] }
tower-lsp = "0.20"
url = "2"
