[package]
name = "buddy_memory"
version = "0.1.0"
edition = "2021"
publish = false

[dependencies]
ash = "0.37"
ash-window = "0.12"
raw-window-handle = "0.5"
winit = "0.28"
log = "0.4"
env_logger = "0.10"
shaderc = "0.8"
image = { version = "0.24", default-features = false, features = ["png", "jpeg"] }
