[package]
name = "drax"
version = "0.1.0"
edition = "2021"
publish = false

[dependencies]
cesu8 = "1"
serde = { version = "1", features = ["derive"] }
serde_json = "1"

[dev-dependencies]
uuid = { version = "1", features = ["v4"] }
