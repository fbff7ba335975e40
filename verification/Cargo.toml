[package]
name = "dns_storage"
version = "0.1.0"
edition = "2021"
publish = false

[dependencies]
base64ct = { version = "1", features = ["alloc"] }
zstd = "0.13"
minreq = { version = "2", features = ["https"] }
sonic-rs = "*"
serde = { version = "1", features = ["derive"] }
pico-args = "0.5"
