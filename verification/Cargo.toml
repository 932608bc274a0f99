[package]
name = "cosmic_macos"
version = "0.1.0"
edition = "2021"
publish = false

[dependencies]
anyhow = "1"
serde = { version = "1", features = ["derive"] }
freedesktop-desktop-entry = "0.7"
