[package]
name = "bosonic_dynamics"
version = "0.1.0"
edition = "2021"
publish = false

[dependencies]
num-complex = "=0.4.6"
num-traits = "=0.2.19"
clap = { version = "*", features = ["derive"] }
serde = { version = "*", features = ["derive"] }
serde_yaml = "*"
env_logger = "*"
log = "*"

[dev-dependencies]
rand = "*"
