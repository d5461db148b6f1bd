[package]
name = "rlist"
version = "0.1.0"
edition = "2021"
publish = false

[dependencies]
anyhow = "*"
chrono = "*"
clap = { version = "*", features = ["derive"] }
colored = "*"
dateparser = "*"
dirs = "*"
serde = { version = "*", features = ["derive"] }
serde_yaml = "*"
sqlite = "*"
