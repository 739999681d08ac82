[package]
name = "hegel"
version = "0.1.0"
edition = "2021"
publish = false

[dependencies]
crc32fast = "1"
rand = "0.10"
ciborium = "0.2"
