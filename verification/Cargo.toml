[package]
name = "terrain"
version = "0.1.0"
edition = "2021"
publish = false

[dependencies]
anyhow = "1"
bytemuck = { version = "1", features = ["derive"] }
clap = { version = "4", features = ["derive"] }
env_logger = "*"
log = "0.4"
osmpbf = "*"
pollster = "*"
rayon = "1"
serde = { version = "1", features = ["derive"] }
serde_json = "1"
wgpu = "*"
