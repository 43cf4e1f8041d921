[package]
name = "unx"
version = "0.1.0"
edition = "2021"
publish = false

[dependencies]
anyhow = "1"
chrono = "0.4"
clap = { version = "4", features = ["derive"] }
csv = "1"
regex = "1"
tabular = "0.2"
users = "0.11"
walkdir = "2"

[dev-dependencies]
rand = "0.8"
