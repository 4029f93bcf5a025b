[package]
name = "skyrim_alchemy_rs"
version = "0.1.0"
edition = "2021"
publish = false

[dependencies]
anyhow = "=1.0.104"
clap = { version = "=4.6.7", features = ["derive"] }
encoding_rs = "=0.8.42"
env_logger = "=0.11.11"
esplugin = "=6.1.4"
libloadorder = "*"
log = "=0.4.34"
memmap2 = "=0.9.11"
moka = { version = "=0.12.16", features = ["sync"] }
serde = { version = "=1.0.229", features = ["derive"] }
serde_json = "=1.0.151"
