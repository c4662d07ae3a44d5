[package]
name = "murder"
version = "0.1.0"
edition = "2021"
publish = false

[dependencies]
bevy = { version = "=0.16.1", default-features = false, features = ["bevy_ui", "bevy_pbr", "bevy_text", "bevy_picking", "bevy_window", "bevy_core_pipeline", "bevy_render", "bevy_asset", "bevy_ui_picking_backend"] }
rand = "=0.8.8"
logos = "0.15"
