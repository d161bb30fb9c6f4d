[package]
name = "lodconv"
version = "0.1.0"
edition = "2021"
publish = false

[dependencies]
cgmath = "0.18"
clap = { version = "4", features = ["derive"] }
thiserror = "1"
