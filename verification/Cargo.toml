[package]
name = "access_log_metrics"
version = "0.1.0"
edition = "2021"
publish = false

[dependencies]
regex = "1"
log = "0.4"
env_logger = "0.10"
notify = "4"
prometheus = "0.13"
hyper = { version = "0.14", features = ["http1", "server", "tcp"] }
tokio = { version = "1", features = ["macros", "rt"] }
clap = "2"
