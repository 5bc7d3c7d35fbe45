[package]
name = "minigpt"
version = "0.1.0"
edition = "2021"
publish = false

[dependencies]
anyhow = "1"
bytemuck = { version = "1", features = ["derive"] }
clap = { version = "4", features = ["derive"] }
pollster = "0.4"
rand = "0.8"
wgpu = "*"
