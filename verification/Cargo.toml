[package]
name = "codewiki"
version = "0.1.0"
edition = "2021"
publish = false

[dependencies]
anyhow = "=1.0.104"
chrono = { version = "=0.4.45", features = ["serde"] }
clap = { version = "=4.6.7", features = ["derive"] }
dirs = "=5.0.1"
serde = { version = "1", features = ["derive"] }
serde_yaml = "0.9"
walkdir = "=2.5.0"
