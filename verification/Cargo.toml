[package]
name = "rsynx"
version = "0.1.0"
edition = "2021"
publish = false

[dependencies]
anyhow = "1"
clap = { version = "4", features = ["derive"] }
env_logger = "0.11"
filetime = "0.2"
flate2 = "1"
hex = "0.4"
indicatif = "0.17"
log = "0.4"
memmap2 = "0.9"
sha2 = "0.10"

[dev-dependencies]
rand = "0.9"
