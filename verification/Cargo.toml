[package]
name = "wire_client"
version = "0.1.0"
edition = "2021"
publish = false

[dependencies]
anyhow = "1"
flate2 = "1"
serde = { version = "1", features = ["derive"] }
serde_json = "1"
sha2 = "0.10"
wow_login_messages = { version = "*", features = ["sync"] }
wow_srp = "*"
wow_world_base = { version = "*", features = ["vanilla", "shared"] }
wow_world_messages = { version = "*", features = ["vanilla", "sync", "encryption"] }
