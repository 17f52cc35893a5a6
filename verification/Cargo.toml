[package]
name = "rt_matchmaking"
version = "0.1.0"
edition = "2021"
publish = false

[dependencies]
ringbuf = "0.4"
statrs = "*"
rand = "*"
crossbeam-channel = "0.5"
log = "0.4"
env_logger = "*"
serde = { version = "1", features = ["derive"] }
postcard = { version = "1", features = ["alloc"] }
scopeguard = "1"
