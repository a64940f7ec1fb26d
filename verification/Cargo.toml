[package]
name = "pathtracer"
version = "0.1.0"
edition = "2021"
publish = false

[dependencies]
cgmath = "0.18"
clap = { version = "3", features = ["derive", "env"] }
easy-gltf = "*"
image = { version = "*", default-features = false, features = ["png", "jpeg"] }
pbr = "1"
rand = "0.8"
rayon = "1"
serde = { version = "1", features = ["derive"] }
serde_json = "1"
serde_yaml = "0.9"
sfml = "*"
