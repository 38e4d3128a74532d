[package]
name = "pointcloud_playground"
version = "0.1.0"
edition = "2021"
publish = false

[dependencies]
kiss3d = "=0.35.0"
nalgebra = "=0.30.1"
