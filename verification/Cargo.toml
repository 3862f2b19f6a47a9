[package]
name = "lilearn"
version = "0.1.0"
edition = "2021"
publish = false

[dependencies]
rand = "0.8"
rpds = "0.12"
serde = { version = "1", features = ["derive"] }
eframe = { version = "0.20", default-features = false, features = ["default_fonts", "glow"] }
egui = { version = "0.20", default-features = false }
image = { version = "0.24", default-features = false, features = ["png"] }
