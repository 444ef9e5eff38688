[package]
name = "utils_rs"
version = "0.1.0"
edition = "2021"
publish = false

[dependencies]
clap = { version = "=4.6.7", features = ["derive"] }
color-eyre = "=0.6.5"
eyre = "=0.6.14"
regex = "=1.13.1"
tracing = "=0.1.44"
tracing-subscriber = "=0.3.23"
crates-index = { version = "=3.14.2", features = ["git"] }
