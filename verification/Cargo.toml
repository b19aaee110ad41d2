[package]
name = "purple"
version = "0.1.0"
edition = "2021"
publish = false

[dependencies]
anyhow = "1"
clap = { version = "4", features = ["derive"] }
clap_complete = "4"
crossterm = "0.28"
dirs = "6"
glob = "0.3"
ratatui = "0.29"
unicode-width = "0.2"
