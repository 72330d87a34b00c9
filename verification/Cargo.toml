[package]
name = "pmx_viewer"
version = "0.1.0"
edition = "2021"
publish = false

[dependencies]
PMXUtil = "*"
bytemuck = { version = "1", features = ["derive"] }
egui = "0.17"
egui_wgpu_backend = "0.17"
egui-winit = "0.17"
image = "0.24"
pollster = "0.2"
zip = { version = "0.5", default-features = false, features = ["deflate"] }
