[package]
name = "editor_core"
version = "0.1.0"
edition = "2021"
publish = false

[dependencies]
bus = "*"
clap = { version = "*", features = ["derive"] }
sdl2 = { version = "*", features = ["ttf"] }
