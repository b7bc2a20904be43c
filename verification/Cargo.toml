[package]
name = "patrick"
version = "0.1.0"
edition = "2021"
publish = false

[dependencies]
anyhow = "1"
clap = { version = "4", features = ["derive"] }
env_logger = "0.11"
humantime = "2"
libc = "0.2"
log = "0.4"
serde = { version = "1", features = ["derive"] }
toml = "0.8"
walkdir = "2"
