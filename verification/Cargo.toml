[package]
name = "mini_redis_rpc"
version = "0.1.0"
edition = "2021"
publish = false

[dependencies]
pilota = "*"
tokio = { version = "*", features = ["sync", "rt", "time", "macros"] }
