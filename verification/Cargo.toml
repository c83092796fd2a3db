[package]
name = "truthlens"
version = "0.5.0"
edition = "2021"
publish = false

[dependencies]
regex = "1"
serde = { version = "1", features = ["derive"] }
serde_json = "1"
colored = "2"
atty = "0.2"
ureq = { version = "2", features = ["json"] }
