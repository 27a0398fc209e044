[package]
name = "mc"
version = "0.1.0"
edition = "2021"
publish = false

[dependencies]
bytemuck = { version = "1.23", features = ["derive"] }
egui = "0.36"
egui-wgpu = "0.36"
egui-winit = { version = "0.36", default-features = false, features = ["wayland", "x11"] }
fastnoise-lite = { version = "1.1", features = ["f64"] }
glam = "0.30"
half = "2.4"
image = { version = "0.25", default-features = false, features = ["png"] }
pollster = "0.4"
rayon = "1.10"
wgpu = "30"
winit = "0.30"
