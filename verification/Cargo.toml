[package]
name = "ronki"
version = "0.1.0"
edition = "2021"
publish = false

[dependencies]
anstyle = "*"
anyhow = "*"
clap = { version = "*", features = ["derive"] }
procfs = "*"
serde = { version = "*", features = ["derive"] }
toml = "*"
