[package]
name = "ccspellcheck"
version = "1.0.0"
edition = "2021"
publish = false

[dependencies]
bitvec = "1"
clap = "4"
twox-hash = "2"
