[package]
name = "rip"
version = "0.1.0"
edition = "2021"
publish = false

[dependencies]
clap = { version = "4", features = ["cargo"] }
error-chain = "0.12"
time = "0.3"
walkdir = "2"
