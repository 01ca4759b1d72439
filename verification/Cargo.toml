[package]
name = "leaderboard"
version = "0.1.0"
edition = "2021"
publish = false

[dependencies]
actix-web = "4"
diesel = { version = "2", features = ["postgres", "r2d2"] }
env_logger = "0.11"
r2d2 = "0.8"
serde = { version = "1", features = ["derive"] }
