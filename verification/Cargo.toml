[package]
name = "executor"
version = "0.1.0"
edition = "2021"
publish = false

[dependencies]
parity-scale-codec = "3"
ed25519-dalek = "2"
rand = "0.8"
log = "0.4"
env_logger = "0.11"
chrono = "0.4"
colored = "2"
num_cpus = "1"
csv = "1"
