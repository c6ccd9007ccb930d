[package]
name = "railgraph"
version = "0.1.0"
edition = "2021"
publish = false

[dependencies]
anyhow = "*"
csv = "*"
env_logger = "*"
osmpbfreader = "*"
serde_json = "*"
structopt = "*"
