[package]
name = "pltrs_core"
version = "0.1.0"
edition = "2021"
publish = false

[dependencies]
anyhow = "1"
env_logger = "0.11"
pollster = "0.3"
pyo3 = { version = "0.22", features = ["extension-module"] }
wgpu = "0.20"
winit = "0.30"
