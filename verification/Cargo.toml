[package]
name = "desktop_task_queue"
version = "0.1.0"
edition = "2021"
publish = false

[dependencies]
eframe = { version = "0.36", default-features = false, features = ["default_fonts", "glow", "x11"] }
egui = "0.36"
raw-window-handle = "0.6"
serde = { version = "1", features = ["derive"] }
serde_json = "1"
