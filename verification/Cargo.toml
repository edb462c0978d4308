[package]
name = "simplicial_homology"
version = "0.1.0"
edition = "2021"
publish = false

[dependencies]
nalgebra = { version = "0.31", default-features = false, features = ["std"] }
num = "0.4"
