[package]
name = "harmony"
version = "0.1.0"
edition = "2021"
publish = false

[dependencies]
anyhow = "1"
clap = { version = "4", features = ["derive"] }
druid = { version = "0.8", features = ["im"] }
walkdir = "2"
