[package]
name = "mcquic"
version = "0.1.0"
edition = "2021"
publish = false

[dependencies]
env_logger = "0.10"
log = "0.4"
mio = { version = "0.8", features = ["net", "os-poll"] }
octets = "0.3"
ring = "0.17"
socket2 = "0.5"
