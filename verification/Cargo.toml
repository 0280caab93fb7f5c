[package]
name = "dnsconfigd"
version = "0.1.0"
edition = "2021"
publish = false

[dependencies]
serde = { version = "=1.0.229", features = ["derive"] }
serde_json = "=1.0.151"
docopt = "=1.1.1"
log = "=0.4.34"
env_logger = "=0.11.11"
