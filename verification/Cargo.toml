[package]
name = "vedit"
version = "0.1.0"
edition = "2021"
publish = false

[dependencies]
cpal = "*"
env_logger = { version = "*", default-features = false }
ffmpeg-next = "*"
fontdue = "*"
log = "*"
pollster = "*"
rfd = { version = "*", default-features = false, features = ["xdg-portal"] }
ron = "*"
serde = { version = "*", features = ["derive"] }
wgpu = "*"
winit = "*"
