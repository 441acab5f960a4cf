[package]
name = "byo_suite"
version = "0.1.0"
edition = "2021"
publish = false

[dependencies]
anyhow = "*"
chrono = "*"
clap = { version = "*", features = ["derive"] }
colorize = "*"
crossterm = "*"
dirs = "*"
nix = { version = "*", features = ["process", "fs", "signal"] }
rand = "*"
regex = "*"
thiserror = "*"
tokio = { version = "*", features = ["full"] }
walkdir = "*"
