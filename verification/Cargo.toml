[package]
name = "blitz-paint"
version = "0.1.0"
edition = "2021"
publish = false

[dependencies]
anyrender = "*"
anyrender_svg = "*"
color = "*"
kurbo = "*"
peniko = "*"
smallvec = "1"
stylo = "*"
usvg = "*"
