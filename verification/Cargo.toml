[package]
name = "ccll_guidelines"
version = "0.1.0"
edition = "2021"
publish = false

[dependencies]
base64 = "*"
flate2 = "*"
clap = { version = "*", features = ["derive"] }
dirs = "*"
