[package]
name = "concourse"
version = "0.1.0"
edition = "2021"
publish = false

[dependencies]
sled = "=0.34.7"
serenity = { version = "=0.10.10", features = ["unstable_discord_api"] }
tokio = { version = "=1.53.2", features = ["macros", "rt-multi-thread"] }
chrono = { version = "=0.4.45", features = ["serde"] }
serde = { version = "1", features = ["derive"] }
serde_json = "1"
svg = "=0.18.0"
