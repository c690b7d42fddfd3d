[package]
name = "sordahe"
version = "0.1.0"
edition = "2021"
publish = false

[dependencies]
regex = "1"
anyhow = "1"
argh = "0.1"
serde = "1"
serde_json = "1"
thiserror = "1"
wayland-client = "*"
wayland-protocols-misc = { version = "*", features = ["client"] }
memfd = "*"
serialport = { version = "*", default-features = false }
