[package]
name = "thp"
version = "0.1.0"
edition = "2021"
publish = false

[dependencies]
blake3 = "1"
regex = "1"
tempfile = "3"
