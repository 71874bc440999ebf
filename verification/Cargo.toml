[package]
name = "rustgraph"
version = "0.1.0"
edition = "2021"
publish = false

[dependencies]
bitflags = "2"
nalgebra = "0.33"
image = { version = "0.25", default-features = false, features = ["png", "jpeg", "tga", "bmp"] }
gltf = "1"
rayon = "1"
serde = { version = "1", features = ["derive"] }
toml = "0.8"
glfw = "*"
softbuffer = "0.4"
