[package]
name = "notectl"
version = "0.1.0"
edition = "2021"
publish = false

[dependencies]
glob = "=0.3.4"
serde = { version = "=1.0.229", features = ["derive"] }
serde_json = "=1.0.154"
serde_yaml = "=0.9.34"
toml = "=0.8.23"
blake3 = { version = "=1.8.7", features = ["pure"] }
dirs = "=6.0.0"
clap = { version = "4", features = ["derive"] }
rmcp = "*"
schemars = "*"
async-trait = "0.1"
tokio = { version = "1", features = ["rt"] }
reqwest = { version = "0.12", default-features = false, features = ["json", "rustls-tls"] }
