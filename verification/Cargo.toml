[package]
name = "dwemer_poolrooms"
version = "0.3.1"
edition = "2021"
publish = false

[dependencies]
anyhow = "=1.0.104"
bytemuck = { version = "=1.25.2", features = ["derive"] }
egui = "=0.37.0"
egui-wgpu = "=0.37.0"
wgpu = "=30.0.1"
