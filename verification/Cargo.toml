[package]
name = "maze"
version = "0.1.0"
edition = "2021"
publish = false

[dependencies]
bit-vec = "0.6.3"
bmp = "0.5.0"
