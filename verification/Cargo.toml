[package]
name = "dedup"
version = "0.1.0"
edition = "2021"
publish = false

[dependencies]
adler32 = "*"
rust-crypto = "*"
sha2 = "*"
regex = "*"
tempfile = "*"
