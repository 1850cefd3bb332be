[package]
name = "trigrep"
version = "0.1.0"
edition = "2021"
publish = false

[dependencies]
regex = "1"
regex-syntax = "0.8"
colored = "2"
atty = "0.2"
clap = { version = "4", features = ["derive"] }
rayon = "1"
anyhow = "1"
