[package]
name = "sudoku-solver"
version = "0.1.0"
edition = "2021"
publish = false

[dependencies]
bevy = { version = "=0.17.3", default-features = false, features = ["std", "bevy_asset", "bevy_color", "bevy_core_pipeline", "bevy_render", "bevy_mesh", "bevy_camera", "bevy_sprite", "bevy_sprite_render", "bevy_window", "bevy_winit", "x11"] }
