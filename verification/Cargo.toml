[package]
name = "load_balancer"
version = "0.1.0"
edition = "2021"
publish = false

[dependencies]
clap = "4"
env_logger = "=0.11.11"
log = "=0.4.35"
tokio = { version = "=1.54.1", features = ["rt-multi-thread", "macros"] }
