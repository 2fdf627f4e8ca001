[package]
name = "physics"
version = "0.1.0"
edition = "2021"
publish = false

[dependencies]
genmesh = "0.4"
nalgebra = "0.10"
