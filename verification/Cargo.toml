[package]
name = "p2p_message"
version = "0.1.0"
edition = "2021"
publish = false

[dependencies]
tentacle = { version = "=0.3.8", features = ["molc"] }
tokio = { version = "=0.2.25", features = ["rt-threaded"] }
futures = "=0.3.34"
log = "=0.4.34"
env_logger = "=0.8.4"

[dev-dependencies]
serde_json = "=1.0.154"
