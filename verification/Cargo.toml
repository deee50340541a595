[package]
name = "tuxdrive"
version = "0.1.0"
edition = "2021"
publish = false

[dependencies]
num_cpus = "1"
crossbeam = "0.8"
rayon = "1"
nix = { version = "*", features = ["fs"] }
serde = { version = "1", features = ["derive"] }
serde_json = "1"
thiserror = "*"
dirs = "*"
log = "0.4"
env_logger = "*"
colored = "*"
