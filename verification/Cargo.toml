[package]
name = "bx"
version = "0.1.0"
edition = "2021"
publish = false

[dependencies]
seahash = "*"
nucleo-matcher = "*"
clap = { version = "*", features = ["derive"] }
color-eyre = "*"
env_logger = "*"
log = "*"
serde = { version = "*", features = ["derive"] }
serde_json = "*"
uzers = "*"
