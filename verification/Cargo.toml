[package]
name = "texture_data"
version = "0.1.0"
edition = "2021"
publish = false

[dependencies]
anyhow = "=1.0.104"
bytemuck = { version = "=1.25.2", features = ["derive", "min_const_generics"] }
env_logger = "=0.8.4"
futures = "=0.3.34"
glam = { version = "=0.13.1", features = ["bytemuck"] }
image = "=0.23.14"
imgui = "=0.7.0"
imgui-wgpu = "=0.14.0"
imgui-winit-support = "=0.7.1"
ogmo3 = "=0.1.1"
wgpu = "=0.7.1"
winit = "=0.24.0"
