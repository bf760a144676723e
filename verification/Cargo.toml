[package]
name = "ray_tracer"
version = "0.1.0"
edition = "2021"
publish = false

[dependencies]
glam = "0.24"
image = { version = "0.24", default-features = false, features = ["jpeg", "png"] }
indicatif = "0.17"
nanorand = "0.7"
rand = "0.8"
rayon = "1"
