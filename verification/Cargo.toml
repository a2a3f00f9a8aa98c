[package]
name = "git_rust"
version = "0.1.0"
edition = "2021"
publish = false

[dependencies]
anyhow = "1"
chrono = { version = "0.4", default-features = false, features = ["clock"] }
clap = { version = "4", features = ["derive"] }
flate2 = "1"
hex = "0.4"
ignore = "0.4"
sha1 = "0.10"
