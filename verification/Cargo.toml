[package]
name = "calculator"
version = "0.1.0"
edition = "2021"
publish = false

[dependencies]
glow = "=0.12.3"
imgui = "=0.11.0"
imgui-glow-renderer = "=0.11.0"
imgui-sdl2-support = "=0.11.0"
sdl2 = "=0.34.5"
