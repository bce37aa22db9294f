[package]
name = "quartz_engine"
version = "0.1.0"
edition = "2021"
publish = false

[dependencies]
serde = { version = "1", features = ["derive"] }
ron = "*"
linked-hash-map = "*"
glam = "*"
log = "0.4"
erased-serde = "*"
libloading = "*"
