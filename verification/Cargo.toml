[package]
name = "uasat"
version = "0.1.0"
edition = "2021"

[dependencies]
bit-vec = "*"
varisat = "*"
