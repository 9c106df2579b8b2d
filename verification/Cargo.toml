[package]
name = "notepadmd_plus"
version = "0.1.0"
edition = "2021"
publish = false

[dependencies]
egui = "0.31"
eframe = { version = "0.31", default-features = false, features = ["default_fonts", "glow", "x11"] }
