[package]
name = "eth2fuzz"
version = "0.1.0"
edition = "2021"
publish = false

[dependencies]
sha2 = "=0.10.9"
serde = { version = "=1.0.229", features = ["derive"] }
serde_json = "=1.0.154"
ureq = { version = "=2.12.1", default-features = false, features = ["json"] }
rand = "=0.8.8"
failure = "=0.1.8"
walkdir = "=2.5.0"
