[package]
name = "gol"
version = "0.1.0"
edition = "2021"
publish = false

[dependencies]
eframe = { version = "0.31", default-features = false, features = ["wgpu", "default_fonts", "x11"] }
egui = "0.31"
wgpu = "24"
bytemuck = { version = "1", features = ["derive"] }
png = "0.17"
rand = "0.9"
rquickjs = "0.9"
arboard = "3"
env_logger = "0.11"
log = "0.4"
