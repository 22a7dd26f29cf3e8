[package]
name = "grotsky"
version = "0.1.0"
edition = "2021"
publish = false

[dependencies]
serde = { version = "1", features = ["derive"] }
bincode = "1"
socket2 = "0.5"
fnv = "1"
