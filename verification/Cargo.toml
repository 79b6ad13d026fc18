[package]
name = "loomd"
version = "0.1.0"
edition = "2021"
publish = false

[dependencies]
serde = { version = "1", features = ["derive"] }
serde_json = "1"
ureq = { version = "3", features = ["json"] }
rusqlite = { version = "*", features = ["bundled"] }
serialport = { version = "4", default-features = false }
