[package]
name = "dosnap"
version = "0.1.0"
edition = "2021"
publish = false

[dependencies]
anyhow = "1"
chrono = "0.4"
clap = "2"
env_logger = "0.11"
log = "0.4"
nix = { version = "0.29", features = ["sched", "mount", "user"] }
serde = { version = "1", features = ["derive"] }
tempfile = "3"
toml = "0.8"
