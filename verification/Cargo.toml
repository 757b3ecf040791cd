[package]
name = "snapfaas"
version = "0.1.0"
edition = "2021"
publish = false

[dependencies]
labeled = "=0.1.0"
rand = "=0.8.8"
lmdb = "=0.8.0"
r2d2 = "=0.8.10"
log = "=0.4.34"
clap = "=2.34.0"
env_logger = "=0.9.3"
tokio = { version = "=1.54.1", features = ["rt-multi-thread"] }
tikv-client = "0.3"

[dev-dependencies]
prost = "=0.11.9"
