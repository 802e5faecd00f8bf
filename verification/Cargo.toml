[package]
name = "kmeans"
version = "0.1.0"
edition = "2021"
publish = false

[dependencies]
matrixmultiply = "0.3"
rand = "0.8"
rayon = "1"
