[package]
name = "raycaster"
version = "0.1.0"
edition = "2021"
publish = false

[dependencies]
image = { version = "=0.25.10", default-features = false, features = ["png"] }
minifb = "=0.29.0"
nalgebra-glm = "=0.21.0"
rodio = { version = "=0.20.1", default-features = false, features = ["wav"] }
