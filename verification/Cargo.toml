[package]
name = "rustidemy_bot"
version = "0.1.0"
edition = "2021"
publish = false

[dependencies]
anyhow = "=1.0.104"
axum = "=0.8.9"
bytes = "=1.12.1"
chrono = { version = "=0.4.45", features = ["serde"] }
http-body-util = "=0.1.5"
hyper = { version = "=1.12.0", features = ["client", "http1"] }
hyper-tls = "=0.6.0"
hyper-util = { version = "=0.1.21", features = ["client-legacy", "http1", "tokio"] }
lru = "=0.19.0"
regex = "=1.13.1"
reqwest = "=0.12.28"
rss = "=2.1.2"
scraper = "=0.29.0"
serde = { version = "=1.0.229", features = ["derive"] }
serde_json = "=1.0.154"
# Not called directly: teloxide depends on takecell, and later releases of it
# need a newer compiler than the one this crate is built with.
takecell = "=0.1.1"
teloxide = "=0.17.0"
tokio = { version = "=1.54.1", features = ["full"] }
tower-http = { version = "=0.6.11", features = ["fs"] }
