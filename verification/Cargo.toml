[package]
name = "bulk"
version = "0.1.0"
edition = "2021"
publish = false

[dependencies]
anyhow = "*"
clap = "2"
env_logger = "*"
git2 = { version = "*", default-features = false }
log = "*"
