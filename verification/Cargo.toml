[package]
name = "flatten"
version = "0.1.0"
edition = "2021"
publish = false

[dependencies]
anyhow = "1"
clap = { version = "4", features = ["derive"] }
pollster = "0.3"
vello = { version = "0.1", features = ["wgpu-profiler"] }
wgpu = "0.19"
wgpu-profiler = "0.16"
