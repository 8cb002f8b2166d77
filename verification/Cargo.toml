[package]
name = "markovbot"
version = "0.1.0"
edition = "2021"
publish = false

[dependencies]
rand = "*"
regex = "*"
lazy_static = "*"
anyhow = "*"
irc = "*"
tokio = { version = "*", features = ["macros", "rt-multi-thread"] }
futures = "*"
