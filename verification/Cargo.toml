[package]
name = "pf_vis"
version = "0.1.0"
edition = "2021"
publish = false

[dependencies]
eframe = { version = "0.37", default-features = false, features = ["default_fonts", "glow", "x11"] }
egui = "0.37"
rfd = "0.17"
serde = { version = "1", features = ["derive"] }
serde_json = "1"
