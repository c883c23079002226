[package]
name = "concatener"
version = "0.1.0"
edition = "2021"
publish = false

[dependencies]
anyhow = "*"
clap = "*"
encoding_rs = "*"
indicatif = "*"
