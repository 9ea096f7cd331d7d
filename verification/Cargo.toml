[package]
name = "pokerbot"
version = "0.1.0"
edition = "2021"
publish = false

[dependencies]
rand = "0.9"
regex = "1"
serenity = "0.12"
poise = "0.6"
tokio = { version = "1", features = ["macros", "rt-multi-thread", "time"] }
crossbeam = "0.8"
sqlx = { version = "0.8", default-features = false, features = ["sqlite", "runtime-tokio"] }
dotenvy = "0.15"
env_logger = "0.11"
