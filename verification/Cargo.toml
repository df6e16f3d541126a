[package]
name = "mbx_cache"
version = "0.1.0"
edition = "2021"
publish = false

[dependencies]
blake3 = "1"
env_filter = "*"
libc = "0.2"
log = "0.4"
serde = { version = "1", features = ["derive"] }
serde_json = "1"
