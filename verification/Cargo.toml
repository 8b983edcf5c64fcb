[package]
name = "book_catalog"
version = "0.1.0"
edition = "2021"
publish = false

[dependencies]
base64 = "*"
epub = "*"
rayon = "*"
serde = { version = "*", features = ["derive"] }
serde_json = "*"
