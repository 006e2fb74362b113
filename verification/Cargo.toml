[package]
name = "sync_engine"
version = "0.1.0"
edition = "2021"
publish = false

[dependencies]
anyhow = "1"
junction = "1"
log = "0.4"

[dev-dependencies]
tempfile = "3"
