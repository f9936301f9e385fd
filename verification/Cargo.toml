[package]
name = "discord_pipe"
version = "0.1.0"
edition = "2021"
publish = false

[dependencies]
serde_json = "1"
serde = { version = "1", features = ["derive"] }
clap = { version = "4", features = ["derive", "env"] }
ctrlc = "3"
dotenvy = "0.15"
