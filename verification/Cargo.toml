[package]
name = "zipsurf"
version = "0.1.0"
edition = "2021"
publish = false

[dependencies]
eframe = { version = "0.33", default-features = false, features = ["default_fonts", "glow", "x11"] }
egui = "0.33"
lazy_static = "1"
