[package]
name = "bazbot"
version = "0.1.0"
edition = "2021"
publish = false

[dependencies]
rand = "0.8"
rusqlite = { version = "*", features = ["bundled"] }
irc = { version = "*", default-features = false }
futures = "*"
tokio = { version = "*", features = ["rt-multi-thread", "macros"] }
clap = "*"
dotenv = "*"
env_logger = "*"
log = "*"
