[package]
name = "evremap"
version = "0.1.0"
edition = "2021"
publish = false

[dependencies]
evdev-rs = "*"
anyhow = "*"
clap = { version = "*", features = ["derive"] }
log = "*"
pretty_env_logger = "*"
serde = { version = "*", features = ["derive"] }
toml = "*"
thiserror = "*"
libc = "*"
