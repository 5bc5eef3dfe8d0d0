[package]
name = "grit"
version = "0.1.0"
edition = "2021"
publish = false

[dependencies]
sha1 = "*"
flate2 = "*"
chrono = "*"
rand = "*"
anyhow = "*"
