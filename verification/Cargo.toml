[package]
name = "evm_bench"
version = "0.1.0"
edition = "2021"
publish = false

[dependencies]
anyhow = "=1.0.104"
bollard = "=0.14.0"
chrono = "=0.4.45"
clap = { version = "=4.6.7", features = ["derive"] }
env_logger = "=0.10.2"
ethers-core = "=2.0.14"
ethers-solc = "=2.0.14"
futures = "=0.3.34"
glob = "=0.3.4"
hex = "=0.4.3"
jsonschema = { version = "0.17", default-features = false }
log = "=0.4.34"
semver = "=1.0.28"
serde = { version = "=1.0.229", features = ["derive"] }
serde_json = "=1.0.154"
tar = "=0.4.46"
tokio = { version = "=1.54.1", features = ["macros", "rt-multi-thread"] }
