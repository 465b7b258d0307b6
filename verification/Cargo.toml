[package]
name = "tornado_vault"
version = "0.1.0"
edition = "2021"
publish = false

[dependencies]
solana-program = "1.18"
byteorder = "1"
bigint = "4"
