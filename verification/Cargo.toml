[package]
name = "base"
version = "0.1.0"
edition = "2021"
publish = false

[dependencies]
wincode = { version = "=0.6.3", features = ["derive"] }
clap = { version = "=4.6.7", features = ["derive"] }
mlua = { version = "=0.12.2", features = ["lua54", "vendored"] }
winit = "=0.29.15"
glutin = "=0.31.3"
glutin-winit = "=0.4.2"
glow = "=0.13.1"
glow_glyph = "=0.7.0"
raw-window-handle = "=0.5.2"
