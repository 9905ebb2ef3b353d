[package]
name = "cargo-gha"
version = "0.1.0"
edition = "2021"
publish = false

[dependencies]
anyhow = "=1.0.104"
async-compression = { version = "=0.4.52", features = ["tokio", "gzip", "xz"] }
clap = "=4.6.7"
ctrlc = "=3.5.2"
detect-targets = "=0.1.96"
dialoguer = "=0.10.4"
octocrab = "=0.40.0"
owo-colors = "=3.5.0"
reqwest = { version = "=0.11.27", features = ["stream"] }
serde = { version = "=1.0.229", features = ["derive"] }
tokio = { version = "=1.54.1", features = ["full"] }
tokio-stream = "=0.1.19"
tokio-tar = "=0.3.1"
tokio-util = { version = "=0.7.20", features = ["io"] }
toml = "=0.7.8"
toml_edit = "=0.19.15"
walkdir = "=2.5.0"
zip = { version = "=0.6.6", default-features = false, features = ["deflate"] }
