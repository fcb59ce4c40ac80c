[package]
name = "gomoku"
version = "0.1.0"
edition = "2021"
publish = false

[dependencies]
fastrand = "2"
fixedbitset = "0.5"
rapidhash = "*"
clap = { version = "4", features = ["derive"] }
anyhow = "1"
ratatui = "*"
