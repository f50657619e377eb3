[package]
name = "cutr"
version = "0.1.0"
edition = "2021"
publish = false

[dependencies]
clap = "*"
regex = "*"
walkdir = "*"

[dev-dependencies]
csv = "*"
