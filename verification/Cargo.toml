[package]
name = "bevy_flappy_bird"
version = "0.1.0"
edition = "2021"
publish = false

[dependencies]
bevy = { version = "0.17", default-features = false, features = ["bevy_asset", "bevy_audio", "bevy_sprite", "bevy_text", "bevy_ui", "bevy_gizmos", "bevy_render", "bevy_core_pipeline", "png", "vorbis", "default_font"] }
rand = "0.9"
