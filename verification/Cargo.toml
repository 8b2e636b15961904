[package]
name = "sabre"
version = "0.1.0"
edition = "2021"
publish = false

[dependencies]
smallvec = "1"
ahash = "0.8"
clap = { version = "4", features = ["derive"] }
once_cell = "1"
anyhow = "1"
env_logger = "0.10"
log = "0.4"

[dev-dependencies]
rand = "0.8"
