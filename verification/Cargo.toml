[package]
name = "game_support"
version = "0.1.0"
edition = "2021"
publish = false

[dependencies]
serde = { version = "1.0.229", features = ["derive"] }
clap = { version = "4.6.7", features = ["derive"] }
anyhow = "1.0.104"
async-compat = "0.2.6"
log = "0.4.35"
