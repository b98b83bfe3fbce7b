[package]
name = "btclib"
version = "0.1.0"
edition = "2021"
publish = false

[dependencies]
sha2 = "0.10"
k256 = "0.13"
rand_core = { version = "0.6", features = ["getrandom"] }
uuid = { version = "1", features = ["v4"] }
chrono = "0.4"
crossbeam-skiplist = "0.1"
anyhow = "1"
argh = "0.1"
dashmap = "*"
kanal = "*"
serde = { version = "1", features = ["derive"] }
tokio = { version = "1", features = ["full"] }
toml = "*"
tracing = "0.1"
tracing-appender = "0.2"
tracing-subscriber = { version = "0.3", features = ["env-filter"] }
text-to-ascii-art = "*"

[dev-dependencies]
bigdecimal = "0.4"
ciborium = "0.2"
