[package]
name = "krappebot"
version = "0.1.0"
edition = "2021"
publish = false

[dependencies]
rand = "=0.8.8"
chrono = "=0.4.45"
anyhow = "=1.0.104"
tokio = { version = "=1.54.1", features = ["full"] }
sqlx = { version = "=0.8.6", features = ["sqlite", "runtime-tokio"] }
teloxide = { version = "=0.13.0", features = ["macros"] }
takecell = "=0.1.1"
irc = "=1.1.0"
futures = "=0.3.34"
dotenvy = "=0.15.7"
dptree = "=0.3.0"
tracing = "=0.1.44"
tracing-subscriber = { version = "=0.3.23", features = ["env-filter"] }
rustls = { version = "=0.23.46", default-features = false, features = ["ring", "std"] }
