[package]
name = "colander_cache"
version = "0.1.0"
edition = "2021"
publish = false

[dependencies]
ahash = "0.8"
arc-swap = "1"
axum = "0.8"
bytes = "1"
http-body-util = "0.1"
hyper-util = { version = "0.1", features = ["client-legacy", "http1", "tokio"] }
notify = "*"
parking_lot = "0.12"
redis-protocol = { version = "*", features = ["bytes"] }
serde = { version = "1", features = ["derive"] }
serde_json = "1"
tokio = { version = "1", features = ["rt-multi-thread", "macros", "net", "io-util", "signal", "time", "sync"] }
tokio-util = "0.7"
toml = "*"
