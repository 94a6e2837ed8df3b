[package]
name = "warframe_market_ducats_buyer"
version = "0.1.0"
edition = "2021"
publish = false

[dependencies]
convert_case = "*"
regex = "1"
fake = "*"
serde = { version = "1", features = ["derive"] }
reqwest = { version = "0.12", default-features = false, features = ["json", "rustls-tls"] }
tokio = { version = "1", features = ["rt-multi-thread", "sync"] }
futures = "0.3"
log = "0.4"
env_logger = "*"
