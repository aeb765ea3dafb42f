[package]
name = "gh_reply"
version = "0.1.0"
edition = "2021"
publish = false

[dependencies]
chrono = "*"
rand = "*"
clap = { version = "*", features = ["derive"] }
