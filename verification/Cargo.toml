[package]
name = "minkv"
version = "0.1.0"
edition = "2021"
publish = false

[dependencies]
crc32fast = "*"
redis-protocol = "*"
regex = "*"
fs2 = "*"
serde = { version = "*", features = ["derive"] }
toml = "*"
