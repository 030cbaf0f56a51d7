[package]
name = "unisync"
version = "0.1.0"
edition = "2021"
publish = false

[dependencies]
chrono = "*"
console = "*"
env_logger = "*"
fs_extra = "*"
hex = "*"
log = "*"
sha2 = "*"
uuid = { version = "*", features = ["v4"] }
walkdir = "*"
