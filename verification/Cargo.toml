[package]
name = "pf"
version = "0.1.0"
edition = "2021"
publish = false

[dependencies]
anyhow = "*"
clap = { version = "*", features = ["derive"] }
colored = "*"
dirs = "*"
env_logger = "*"
serde = { version = "*", features = ["derive"] }
serde_json = "*"
walkdir = "*"
