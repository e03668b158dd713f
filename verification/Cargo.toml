[package]
name = "voxel_octree"
version = "0.1.0"
edition = "2021"
publish = false

[dependencies]
anyhow = "1"
flexi_logger = "0.25"
log = "0.4"
pollster = "0.3"
wgpu = "0.16"
winit = "0.28"
