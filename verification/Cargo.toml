[package]
name = "rustyplot"
version = "0.1.0"
edition = "2021"
publish = false

[dependencies]
anyhow = "1"
clap = { version = "4", features = ["derive"] }
eframe = { version = "0.29", default-features = false, features = ["default_fonts", "glow", "wayland", "x11"] }
egui_plot = "0.29"
env_logger = "0.11"
log = "0.4"
rand = "0.8"
socket2 = { version = "0.5", features = ["all"] }
surge-ping = "0.8"
tokio = { version = "1", features = ["full"] }
