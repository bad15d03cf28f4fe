[package]
name = "loam"
version = "0.1.0"
edition = "2021"
publish = false

[dependencies]
naga = { version = "*", features = ["wgsl-in"] }
wgpu = "*"
anyhow = "*"
thiserror = "*"
serde = { version = "*", features = ["derive"] }
ron = "*"
glam = "*"
bytemuck = "*"
pollster = "*"
web-time = "*"
tracing = "*"
