[package]
name = "football-coach-poc"
version = "0.1.0"
edition = "2021"
publish = false

[dependencies]
anyhow = "1"
chrono = "0.4"
core-foundation = "*"
core-graphics = "*"
crossbeam-channel = "0.5"
dirs = "*"
eframe = { version = "*", default-features = false, features = ["default_fonts", "glow", "x11"] }
egui = { version = "*", default-features = false, features = ["default_fonts"] }
env_logger = "*"
ffmpeg-next = "*"
image = { version = "*", default-features = false }
log = "0.4"
nalgebra = "*"
ndarray = "*"
ort = { version = "2.0.0-rc.15", default-features = false, features = ["ndarray", "std"] }
rfd = { version = "*", default-features = false }
serde = { version = "1", features = ["derive"] }
serde_json = "1"
uuid = { version = "1", features = ["v4"] }
