[package]
name = "voxel_renderer"
version = "0.1.0"
edition = "2021"
publish = false

[dependencies]
image = { version = "=0.24.9", default-features = false, features = ["png"] }
cgmath = "0.18"
bytemuck = { version = "1", features = ["derive"] }
instant = "0.1"
env_logger = { version = "0.10", default-features = false }
pollster = "0.3"
