[package]
name = "hlife"
version = "0.1.0"
edition = "2021"
publish = false

[dependencies]
fnv = "1.0"
num = "0.4"
rand = "0.8"
clap = "2"
