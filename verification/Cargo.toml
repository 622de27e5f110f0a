[package]
name = "solar_sim"
version = "0.1.0"
edition = "2021"
publish = false

[dependencies]
gl = "0.14"
glam = "*"
glfw = { version = "*", default-features = false }
rand = "0.9"
walkdir = "2"
