[package]
name = "mem_rearrange"
version = "0.1.0"
edition = "2021"
publish = false

[dependencies]
ndarray-layout = "*"
rayon = "1"
