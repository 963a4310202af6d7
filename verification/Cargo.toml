[package]
name = "photors"
version = "0.1.0"
edition = "2021"
publish = false

[dependencies]
anyhow = "1"
clap = { version = "4", features = ["derive"] }
crossterm = "0.28"
kamadak-exif = "0.5"
ratatui = "0.29"
sha2 = "0.10"
walkdir = "2"
