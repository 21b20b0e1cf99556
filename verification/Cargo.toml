[package]
name = "live_trader"
version = "2.0.0"
edition = "2021"
publish = false

[dependencies]
ring = "0.17"
serde_json = "1"
ureq = { version = "2", features = ["json"] }
