[package]
name = "disk-analyzer"
version = "0.1.0"
edition = "2021"
publish = false

[dependencies]
anyhow = "1"
clap = { version = "4", features = ["derive"] }
crossterm = "0.28"
fs4 = "*"
humansize = "2"
ratatui = "0.29"
rayon = "1"
