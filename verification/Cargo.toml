[package]
name = "polygon_raster"
version = "0.1.0"
edition = "2021"
publish = false

[dependencies]
embedded-graphics = "*"
embedded-graphics-core = "*"
itertools = "*"
nalgebra = { version = "*", default-features = false, features = ["std"] }
