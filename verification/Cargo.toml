[package]
name = "fileagg"
version = "0.1.0"
edition = "2021"

[dependencies]
clap = { version = "*", features = ["derive"] }
copypasta = "*"
