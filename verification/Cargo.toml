[package]
name = "simpa_core"
version = "0.1.0"
edition = "2021"
publish = false

[dependencies]
uuid = "1"
serde = { version = "1", features = ["derive"] }
serde_json = "1"
roxmltree = "*"
robust = "1"
