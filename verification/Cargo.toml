[package]
name = "ivfpq"
version = "0.1.0"
edition = "2021"
publish = false

[dependencies]
nalgebra = "0.33"
rand = "0.8"
rayon = "1"
