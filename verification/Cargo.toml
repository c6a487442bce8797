[package]
name = "autobattler"
version = "0.1.0"
edition = "2021"
publish = false

[dependencies]
rand = "*"
itertools = "*"
serde = { version = "*", features = ["derive"] }
bincode = "1"
flate2 = "*"
hashbrown = "*"
log = "*"
env_logger = "*"
