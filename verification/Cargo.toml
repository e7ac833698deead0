[package]
name = "signal_timeline"
version = "0.1.0"
edition = "2021"
publish = false

[dependencies]
chrono = { version = "0.4", default-features = false, features = ["std"] }
serde = { version = "1", features = ["derive"] }
serde_json = "1"
eframe = { version = "0.29", default-features = false, features = ["glow", "default_fonts", "x11"] }
egui = "0.29"
egui_plot = "0.29"
rfd = { version = "0.15", default-features = false, features = ["xdg-portal", "async-std"] }
