[package]
name = "cgc"
version = "0.1.0"
edition = "2021"
publish = false

[dependencies]
syn = "0.11"
quote = "0.3"
synstructure = "0.5"
