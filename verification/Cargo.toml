[package]
name = "lrc_to_sub"
version = "0.1.0"
edition = "2021"
publish = false

[dependencies]
log = "0.4"
env_logger = "0.9"
structopt = "0.3"
