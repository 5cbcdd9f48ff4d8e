[package]
name = "log_rocket"
version = "0.1.0"
edition = "2021"
publish = false

[dependencies]
regex = "*"
notify = "*"
