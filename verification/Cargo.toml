[package]
name = "rlwfc"
version = "0.1.0"
edition = "2021"
publish = false

[dependencies]
petgraph = "*"
rand = "0.9"
