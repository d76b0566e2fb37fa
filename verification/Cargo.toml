[package]
name = "wenv"
version = "0.1.0"
edition = "2021"
publish = false

[dependencies]
anyhow = "=1.0.104"
colored = "=3.1.1"
dialoguer = { version = "=0.12.0", default-features = false }
dirs = "=7.0.0"
glob = "=0.3.4"
regex = "=1.13.1"
serde = { version = "=1.0.229", features = ["derive"] }
time = "0.3"
toml = "=1.1.8"
