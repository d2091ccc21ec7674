[package]
name = "struvedb"
version = "0.1.0"
edition = "2021"
publish = false

[dependencies]
indexmap = "2"
uuid = { version = "1", features = ["v4", "serde"] }
serde = { version = "1", features = ["derive"] }
serde_json = "1"
chrono = "0.4"
