[package]
name = "babel2048"
version = "0.1.0"
edition = "2021"
publish = false

[dependencies]
rand = "0.9"
egui = "0.31"
eframe = { version = "0.31", default-features = false, features = ["default_fonts", "glow", "x11"] }
