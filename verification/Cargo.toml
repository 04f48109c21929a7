[package]
name = "scan_control"
version = "0.1.0"
edition = "2021"
publish = false

[dependencies]
itertools = "0.14.0"
eframe = { version = "0.37.0", default-features = false, features = ["default_fonts", "glow", "x11"] }
egui = "0.37.0"
glam = "0.30"
redb = "4.4.0"
notify = "8.2.1"
uuid = { version = "1.29.0", features = ["v4"] }
tracing = "0.1.44"
tracing-subscriber = { version = "0.3.23", features = ["env-filter"] }
eyre = "0.6.14"
crossbeam = "0.8.5"
parking_lot = "0.12.5"
