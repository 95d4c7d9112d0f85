[package]
name = "graphics"
version = "0.1.0"
edition = "2021"
publish = false

[dependencies]
slotmap = "1"
crossterm = "0.28"
winit = "0.29"
softbuffer = "0.4"
image = "0.25"
anyhow = "1"
clap = { version = "4", features = ["derive"] }
