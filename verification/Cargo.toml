[package]
name = "intersection"
version = "0.1.0"
edition = "2021"
publish = false

[dependencies]
bitvec = "1"
poise = "0.5"
tokio = { version = "1", features = ["macros", "rt-multi-thread"] }
anyhow = "1"
dotenvy = "0.15"
tracing = "0.1"
tracing-subscriber = { version = "0.3", features = ["env-filter"] }
tracing-appender = "0.2"
chrono = "0.4"
log = "0.4"
async-recursion = "1"
