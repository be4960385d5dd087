[package]
name = "crypto_proj1_rs"
version = "0.1.0"
edition = "2021"
publish = false

[dependencies]
rand = "0.8"
once_cell = "1"
