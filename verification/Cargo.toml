[package]
name = "lidar_processing"
version = "0.1.0"
edition = "2021"
publish = false

[dependencies]
las = "0.8"
kdtree = "0.7"
nalgebra = "0.32"
rand = "0.8"
