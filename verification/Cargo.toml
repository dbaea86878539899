[package]
name = "storage_service"
version = "0.1.0"
edition = "2021"
publish = false

[dependencies]
serde = { version = "*", features = ["derive"] }
serde_json = "*"
tokio = { version = "*", features = ["fs", "rt-multi-thread", "io-util", "macros"] }

[dev-dependencies]
tempfile = "*"
