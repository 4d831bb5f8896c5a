[package]
name = "my_redis"
version = "0.1.0"
edition = "2021"
publish = false

[dependencies]
async-stream = "0.3"
atoi = "2"
bytes = "1"
clap = { version = "4", features = ["derive"] }
log = "0.4"
tokio = { version = "1", features = ["full"] }
tokio-stream = { version = "0.1", features = ["sync"] }
tracing = "0.1"
tracing-subscriber = "0.3"
