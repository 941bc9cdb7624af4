[package]
name = "kairos"
version = "0.1.0"
edition = "2021"
publish = false

[dependencies]
bevy = { version = "0.8", default-features = false, features = ["bevy_asset", "bevy_winit", "bevy_core_pipeline", "bevy_pbr", "bevy_render", "bevy_sprite", "bevy_text", "bevy_ui", "png", "x11"] }
bevy_rapier3d = "0.16"
bevy-inspector-egui = "0.12"
futures-lite = "1"
noise = "0.8"
