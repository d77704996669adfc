[package]
name = "rasterizer"
version = "0.1.0"
edition = "2021"
publish = false

[dependencies]
bitfont = "*"
log = "*"
env_logger = "*"
pixels = "*"
winit = "*"
winit_input_helper = "*"
