[package]
name = "timestamp_store"
version = "0.1.0"
edition = "2021"
publish = false

[dependencies]
log = "0.4"
env_logger = "0.10"
libc = "0.2"
