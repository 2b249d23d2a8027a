[package]
name = "raycaster"
version = "0.1.0"
edition = "2021"
publish = false

[dependencies]
gilrs = "*"
image = { version = "*", default-features = false, features = ["jpeg", "png", "webp"] }
minifb = "*"
nalgebra-glm = "*"
rodio = "*"
