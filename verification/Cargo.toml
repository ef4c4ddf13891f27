[package]
name = "augur"
version = "0.1.0"
edition = "2021"
publish = false

[dependencies]
serde = { version = "1", features = ["derive"] }
serde_json = "1"
toml = "0.8"
rand = "0.8"
clap = { version = "4", features = ["derive"] }
anyhow = "1"
thiserror = "1"
