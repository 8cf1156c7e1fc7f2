[package]
name = "convex_hull"
version = "0.1.0"
edition = "2021"
publish = false

[dependencies]
nalgebra = "*"
