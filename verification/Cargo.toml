[package]
name = "sender"
version = "0.1.0"
edition = "2021"
publish = false

[dependencies]
clap = { version = "4", features = ["derive"] }
env_logger = "0.11"
frame-system = "=38.0.0"
futures = "0.3"
log = "0.4"
pallet-balances = "=39.0.1"
parity-scale-codec = "=3.7.5"
sp-core = "=34.0.0"
tokio = { version = "1", features = ["rt-multi-thread", "sync", "time"] }
url = "2"
