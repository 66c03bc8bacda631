[package]
name = "crabedb"
version = "0.1.0"
edition = "2021"
publish = false

[dependencies]
twox-hash = "1"
fs2 = "0.4"
time = "0.3"
clap = "2"
log = "0.4"
env_logger = "0.10"
