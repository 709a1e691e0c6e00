[package]
name = "grix"
version = "0.1.0"
edition = "2021"
publish = false

[dependencies]
ignore = "0.4"
memchr = "2"
memmap2 = "0.9"
notify = "*"
regex = "1"
regex-syntax = "0.8"
serde_json = "1"

[dev-dependencies]
tempfile = "3"
