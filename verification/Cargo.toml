[package]
name = "tracked_subnets"
version = "0.1.0"
edition = "2021"
publish = false

[dependencies]
avalanche-types = { version = "=0.1.5", features = ["avalanchego"] }
clap = "=4.6.7"
crossterm = "=0.29.0"
dialoguer = "=0.12.0"
env_logger = "=0.11.11"
log = "=0.4.34"
