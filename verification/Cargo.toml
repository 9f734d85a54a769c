[package]
name = "cube"
version = "0.1.0"
edition = "2021"
publish = false

[dependencies]
image = { version = "0.25", default-features = false, features = ["png"] }
ab_glyph = "0.2"
glam = "0.29"
