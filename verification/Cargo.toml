[package]
name = "seamless-tiler"
version = "0.1.0"
edition = "2021"
publish = false

[dependencies]
eframe = { version = "=0.37.0", default-features = false, features = ["wgpu", "default_fonts", "x11"] }
