[package]
name = "zrs"
version = "0.1.0"
edition = "2021"
publish = false

[dependencies]
anyhow = "1"
clap = { version = "4", features = ["cargo"] }
dirs = "5"
nix = { version = "0.29", features = ["fs", "user", "process"] }
regex = "1"
tempfile = "3"
twoway = "0.2"
