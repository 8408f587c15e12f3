[package]
name = "range_split"
version = "0.1.0"
edition = "2021"
publish = false

[dependencies]
rand = { version = "0.8", features = ["small_rng"] }
bytesize = "1"
rangetools = "*"
clap = { version = "4", features = ["derive"] }
clap-verbosity-flag = "*"
env_logger = "*"
log = "*"
anyhow = "*"
