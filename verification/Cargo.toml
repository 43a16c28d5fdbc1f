[package]
name = "my_redis"
version = "0.1.0"
edition = "2021"
publish = false

[dependencies]
tokio = { version = "1", features = ["full"] }
bytes = "1"
mini-redis = "0.4"
futures = "0.3"
