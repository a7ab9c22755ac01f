[package]
name = "hitormiss"
version = "0.1.0"
edition = "2021"
publish = false

[dependencies]
bytes = "=1.12.1"
chrono = "=0.4.45"
clap = { version = "=4.6.7", features = ["derive"] }
hash_ring = "=0.2.0"
lru = { version = "=0.19.0", default-features = false }
tokio = { version = "=1.54.1", features = ["full"] }
tracing = "=0.1.44"
tracing-subscriber = "=0.3.23"
twox-hash = "=1.6.3"
uuid = { version = "=1.29.0", features = ["v4"] }
