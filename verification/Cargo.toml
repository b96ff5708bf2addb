[package]
name = "tilemap_gen"
version = "0.1.0"
edition = "2021"
publish = false

[dependencies]
hexx = "=0.25.0"
rand = "=0.10.3"
image = { version = "=0.25.10", default-features = false, features = ["png"] }
imageproc = { version = "=0.27.0", default-features = false, features = ["text"] }
ab_glyph = "=0.2.32"
