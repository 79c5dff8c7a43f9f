[package]
name = "codestrain"
version = "0.1.0"
edition = "2021"
publish = false

[dependencies]
extism = "*"
uuid = { version = "*", features = ["v4"] }
sha2 = "*"

[dev-dependencies]
serde_json = "*"
