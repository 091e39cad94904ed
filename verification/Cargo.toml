[package]
name = "regdef"
version = "0.1.0"
edition = "2021"
publish = false

[dependencies]
regex = "=1.13.1"
regex-syntax = "=0.8.11"
unescape = "=0.1.0"
logos = "=0.16.1"
chumsky = "=0.13.0"
clap = { version = "=4.6.7", features = ["derive"] }
