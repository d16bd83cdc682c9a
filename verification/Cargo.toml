[package]
name = "gcd"
version = "0.1.0"
edition = "2021"
publish = false

[dependencies]
fuzzy-matcher = "=0.3.7"
clap = { version = "=4.6.7", features = ["derive"] }
dirs = "=7.0.0"
