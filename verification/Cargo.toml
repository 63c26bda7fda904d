[package]
name = "markov_engine"
version = "0.1.0"
edition = "2021"
publish = false

[dependencies]
rand = "=0.8.8"
serenity = { version = "=0.12.5", features = ["collector"] }
sqlx = { version = "=0.8.6", default-features = false, features = ["runtime-tokio", "sqlite", "macros"] }
tokio = { version = "=1.53.2", features = ["macros", "rt-multi-thread", "time", "sync"] }
dotenvy = "=0.15.7"
futures = "=0.3.34"
reqwest = { version = "=0.12.28", default-features = false }
