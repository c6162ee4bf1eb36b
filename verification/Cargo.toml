[package]
name = "nodus"
version = "0.1.0"
edition = "2021"
publish = false

[dependencies]
bevy = { version = "=0.5.0", default-features = false, features = ["render", "bevy_wgpu", "bevy_winit", "x11"] }
bevy_egui = { version = "=0.4.2", default-features = false }
bevy_prototype_lyon = "=0.3.1"
darling = "=0.10.2"
