[package]
name = "evremap"
version = "0.1.0"
edition = "2021"
publish = false

[dependencies]
anyhow = "*"
evdev-rs = "*"
log = "*"
pretty_env_logger = "*"
serde = { version = "*", features = ["derive"] }
structopt = "*"
thiserror = "*"
toml = "*"
