[package]
name = "n8n_cli"
version = "0.1.0"
edition = "2021"
publish = false

[dependencies]
serde_json = "=1.0.151"
serde = { version = "=1.0.229", features = ["derive"] }
serde_yaml = "=0.9.34"
clap = { version = "=4.6.7", features = ["string"] }
reqwest = { version = "=0.12.28", default-features = false, features = ["blocking", "json"] }
