[package]
name = "yarnspinner"
version = "0.1.0"
edition = "2021"
publish = false

[dependencies]
rand = "*"
regex = "*"
crc32fast = "*"
