[package]
name = "dining_philosophers"
version = "0.1.0"
edition = "2021"
publish = false

[dependencies]
clap = { version = "*", features = ["derive"] }
clap-num = "*"
env_logger = "*"
log = "*"
rand = "*"

[dev-dependencies]
threadpool = "*"
