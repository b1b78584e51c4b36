[package]
name = "neural_network"
version = "0.1.0"
edition = "2021"
publish = false

[dependencies]
csv = "1"
rand = "0.8"
plotlib = "0.5"
