[package]
name = "spine"
version = "0.1.0"
edition = "2021"
publish = false

[dependencies]
farben = "*"
unicode-width = "*"
serde = { version = "1", features = ["derive"] }
