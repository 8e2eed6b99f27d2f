[package]
name = "forceatlas2"
version = "0.1.0"
edition = "2021"
publish = false

[dependencies]
num-traits = "=0.2.19"
rand = "=0.8.8"
rayon = "=1.12.0"
