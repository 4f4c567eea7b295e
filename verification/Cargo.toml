[package]
name = "aftershock"
version = "0.1.0"
edition = "2021"
publish = false

[dependencies]
num_cpus = "=1.17.0"
lodepng = "=3.12.2"
rgb = "=0.8.53"
rusttype = "=0.9.3"
glam = "=0.34.2"
