[package]
name = "khel"
version = "0.1.0"
edition = "2021"
publish = false

[dependencies]
anyhow = "1"
bytemuck = { version = "1", features = ["derive"] }
cgmath = "0.18"
clap = { version = "4", features = ["derive"] }
env_logger = "0.11"
fps_ticker = "1"
image = { version = "0.24", default-features = false, features = ["png"] }
itertools = "=0.12.1"
log = "0.4"
pollster = "0.3"
thiserror = "1"
