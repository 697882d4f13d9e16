[package]
name = "hypr_workspaces"
version = "0.1.0"
edition = "2021"
publish = false

[dependencies]
anyhow = "1"
env_logger = "0.10"
interprocess = { version = "1", default-features = false }
log = "0.4"
regex = "1"
