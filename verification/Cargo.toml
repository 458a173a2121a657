[package]
name = "statsdproxy"
version = "0.1.0"
edition = "2021"
publish = false

[dependencies]
anyhow = "1"
cadence = "1"
clap = { version = "4", features = ["derive"] }
crc32fast = "=1.5.3"
env_logger = "0.10"
humantime = "2"
log = "0.4"
rand = { version = "0.8", features = ["small_rng"] }
serde = { version = "1", features = ["derive"] }
serde_yaml = "0.9"
signal-hook = "0.3"
thread_local = "1"
