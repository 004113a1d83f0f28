[package]
name = "wgpu_tensor"
version = "0.1.0"
edition = "2021"
publish = false

[dependencies]
bytemuck = "=1.25.2"
futures-intrusive = "=0.5.0"
pollster = "=0.3.0"
wgpu = "=0.16.3"

[dev-dependencies]
naga = { version = "=0.12.3", features = ["wgsl-in", "validate"] }
