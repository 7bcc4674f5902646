[package]
name = "udp_hole_punching"
version = "0.1.0"
edition = "2021"
publish = false

[dependencies]
anyhow = "1"
async-std = "1"
bincode = "1"
once_cell = "1"
rand = "0.8"
serde = { version = "1", features = ["derive"] }
sled = "0.34"
uuid = { version = "1", features = ["v4"] }
