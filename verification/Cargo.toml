[package]
name = "nvim_bridge"
version = "0.1.0"
edition = "2021"
publish = false

[dependencies]
atty = "0.2"
clap = "2"
env_logger = "*"
log = "0.4"
unix-daemonize = "*"

[dev-dependencies]
rmpv = "*"
