[package]
name = "rust_tsv_tools"
version = "0.1.0"
edition = "2021"
publish = false

[dependencies]
niffler = "*"
flate2 = "*"
ctrlc = "*"
