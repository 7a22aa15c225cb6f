[package]
name = "openscad_rs"
version = "0.1.0"
edition = "2021"
publish = false

[dependencies]
anyhow = "1"
manifold-rust = "0.19.2"
eframe = { version = "0.37.0", default-features = false, features = ["default_fonts", "glow", "x11"] }
rfd = "0.17.2"
