[package]
name = "scup"
version = "0.1.0"
edition = "2021"
publish = false

[dependencies]
anyhow = "1"
async-trait = "0.1"
clap = { version = "4", features = ["derive"] }
crossterm = "0.28"
env_logger = "0.11"
ignore = "0.4"
kdam = "0.6"
log = "0.4"
mdns-sd = "*"
postcard = { version = "1", features = ["use-std"] }
rand = "0.8"
relative-path = "1"
russh = "0.45"
russh-keys = "0.45"
serde = { version = "1", features = ["derive"] }
sha2 = "0.10"
sled = "0.34"
tokio = { version = "1", features = ["full"] }
