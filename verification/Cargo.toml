[package]
name = "herdr_folders"
version = "0.1.0"
edition = "2021"
publish = false

[dependencies]
serde = { version = "1", features = ["derive"] }
schemars = "0.8"
tracing = "0.1"
unicode-width = "0.1"
