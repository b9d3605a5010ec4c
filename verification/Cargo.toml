[package]
name = "dslabs"
version = "0.1.0"
edition = "2021"
publish = false

[dependencies]
prost = "0.6"
rand = "0.7"
uuid = { version = "0.8", features = ["v4"] }
futures = "0.3"
futures-timer = "3"
log = "0.4"
env_logger = "0.7"

[dev-dependencies]
