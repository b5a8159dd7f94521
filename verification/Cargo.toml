[package]
name = "datrecover"
version = "0.1.0"
edition = "2021"
publish = false

[dependencies]
encoding_rs = "*"
csv = "*"
dotenvy = "*"
memmap2 = "*"
walkdir = "*"

[dev-dependencies]
toml = "*"
