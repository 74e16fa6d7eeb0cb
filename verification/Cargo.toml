[package]
name = "test-runner"
version = "0.1.0"
edition = "2021"
publish = false

[dependencies]
clap = { version = "4", features = ["derive"] }
indicatif = "*"
inquire = "*"
rayon = "1"
regex = "1"
similar = "2"
walkdir = "2"
