[package]
name = "trimesh_core"
version = "0.1.0"
edition = "2021"
publish = false

[dependencies]
nalgebra-glm = "*"

[dev-dependencies]
rand = "*"
