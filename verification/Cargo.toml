[package]
name = "multiglob"
version = "0.1.0"
edition = "2021"
publish = false

[dependencies]
globset = "0.4"
walkdir = "2"
log = { version = "0.4", features = ["kv"] }
env_logger = "0.11"
