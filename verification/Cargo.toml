[package]
name = "rkd"
version = "0.1.0"
edition = "2021"
publish = false

[dependencies]
heapless = "0.8"
nalgebra = "0.33"
num-traits = "0.2"
