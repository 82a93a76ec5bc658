[package]
name = "ipcheck"
version = "0.1.0"
edition = "2021"
publish = false

[dependencies]
gmod = "*"
lazy_static = "*"
