[package]
name = "timelapse_builder"
version = "0.1.0"
edition = "2021"
publish = false

[dependencies]
anyhow = "1"
bytemuck = { version = "1", features = ["derive"] }
clap = { version = "4", features = ["derive"] }
image = "0.25"
indicatif = "0.17"
pollster = "0.3"
rawler = "*"
rayon = "1"
walkdir = "2"
wgpu = "22"
