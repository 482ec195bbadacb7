[package]
name = "ext2fs"
version = "0.1.0"
edition = "2021"
publish = false

[dependencies]
clap = "3.2"
env_logger = "0.10"
log = "0.4"
rand = "0.8"
spin = "0.9"
