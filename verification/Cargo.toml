[package]
name = "ncp"
version = "0.1.0"
edition = "2021"

[dependencies]
anyhow = "1"
bytes = "0.5"
env_logger = "0.7"
log = "0.4"
pretty-hex = "0.2"
thiserror = "1"
tokio = { version = "0.2", features = ["full"] }
