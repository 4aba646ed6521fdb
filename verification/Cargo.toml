[package]
name = "deskpet"
version = "0.1.0"
edition = "2021"
publish = false

[dependencies]
zip = { version = "2", default-features = false, features = ["deflate"] }
png = "0.17"
serde = { version = "1", features = ["derive"] }
serde_json = "1"
serde_yaml = "0.9"
rusqlite = { version = "*", features = ["bundled"] }
tiny_http = "0.12"
image = { version = "0.25", default-features = false, features = ["png", "webp"] }
