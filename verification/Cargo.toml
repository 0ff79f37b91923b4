[package]
name = "rust_git"
version = "0.1.0"
edition = "2021"
publish = false

[dependencies]
sha1 = "*"
chrono = "*"
anyhow = "*"
clap = { version = "*", features = ["derive"] }
walkdir = "*"
