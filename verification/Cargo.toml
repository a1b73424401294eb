[package]
name = "idlebot"
version = "0.1.0"
edition = "2021"
publish = false

[dependencies]
human-repr = "1"
serde = { version = "1", features = ["derive"] }
serenity = "0.11"
sled = "0.34"
tokio = { version = "1", features = ["macros", "rt-multi-thread"] }
toml = "0.5"
