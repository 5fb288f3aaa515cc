[package]
name = "serial_plotter"
version = "0.1.0"
edition = "2021"
publish = false

[dependencies]
csv = "=1.4.0"
serial = "=0.4.0"
egui_plot = "=0.27.2"
env_logger = { version = "=0.11.11", default-features = false }
image = { version = "=0.24.9", default-features = false, features = ["png"] }
rfd = { version = "0.14", default-features = false, features = ["xdg-portal", "async-std"] }
