[package]
name = "spectral"
version = "0.1.0"
edition = "2021"
publish = false

[dependencies]
bytemuck = { version = "1", features = ["derive", "extern_crate_alloc"] }
glam = "0.29"
image = { version = "0.25", default-features = false, features = ["png"] }
pollster = "0.3"
rayon = "1.10"
wgpu = { version = "22", default-features = false, features = ["wgsl"] }
winit = { version = "0.30", default-features = false, features = ["rwh_06", "x11"] }
