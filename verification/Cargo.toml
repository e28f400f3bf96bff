[package]
name = "dsim"
version = "0.1.0"
edition = "2021"
publish = false

[dependencies]
md5 = "*"
clap = { version = "*", features = ["derive"] }
env_logger = "*"
log = "*"
