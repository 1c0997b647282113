[package]
name = "gossimini"
version = "0.1.0"
edition = "2021"
publish = false

[dependencies]
lru = { version = "=0.19.0", default-features = false }
serde = { version = "=1.0.229", features = ["derive"] }
serde_json = "=1.0.154"
anyhow = "=1.0.104"
clap = { version = "=4.6.7", features = ["derive"] }
tokio = { version = "=1.54.1", features = ["macros", "rt-multi-thread", "time"] }
tracing = "=0.1.44"
tracing-subscriber = { version = "=0.3.23", features = ["env-filter"] }
libp2p = { version = "=0.57.1", features = ["tokio", "tcp", "quic", "tls", "noise", "yamux", "identify", "ping", "request-response", "json", "macros"] }
