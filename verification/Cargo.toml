[package]
name = "igrep"
version = "0.1.0"
edition = "2021"
publish = false

[dependencies]
glob = "0.3"
threadpool = "1"
num_cpus = "1"
log = "0.4"
env_logger = { version = "0.11", default-features = false }
