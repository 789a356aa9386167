[package]
name = "dslreports"
version = "0.1.0"
edition = "2021"
publish = false

[dependencies]
hyper = "0.12"
hyper-tls = "0.3"
futures = "0.1"
time = "0.1"
serde = { version = "1", features = ["derive"] }
serde_json = "1"
log = "0.4"
env_logger = "0.6"
failure = "0.1"
