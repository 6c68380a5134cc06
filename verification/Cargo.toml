[package]
name = "gus_hamming"
version = "0.1.0"
edition = "2021"
publish = false

[dependencies]
anyhow = "1"
chrono = "0.4"
clap = { version = "4", features = ["derive"] }
colog = "1"
colored = "2"
env_logger = "0.11"
log = "0.4"
rand = "0.9"
serde = { version = "1", features = ["derive"] }
