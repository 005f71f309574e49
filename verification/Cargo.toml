[package]
name = "topfiles"
version = "0.1.0"
edition = "2021"
publish = false

[dependencies]
litemap = "*"
humansize = "*"
walkdir = "*"
clap = { version = "*", features = ["derive"] }
clap_complete = "*"
