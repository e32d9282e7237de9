[package]
name = "butter_patcher"
version = "0.1.0"
edition = "2021"
publish = false

[dependencies]
sha2 = "0.10"
serde_json = "1"
reqwest = { version = "0.12", default-features = false, features = ["blocking"] }
