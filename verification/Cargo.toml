[package]
name = "shelv"
version = "0.1.0"
edition = "2021"
publish = false

[dependencies]
regex = "=1.13.1"
smallvec = "=1.16.4"
pulldown-cmark = { version = "=0.13.6", default-features = false, features = ["html"] }
serde = { version = "=1.0.229", features = ["derive"] }
serde_json = "=1.0.154"
serde_yaml_ng = "=0.10.0"
chrono = "0.4"
