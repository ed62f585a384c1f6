[package]
name = "tromino_puzzle"
version = "0.1.0"
edition = "2021"
publish = false

[dependencies]
rand_chacha = "=0.9.0"
bevy = { version = "0.16", default-features = false, features = ["std", "bevy_asset", "bevy_color", "bevy_core_pipeline", "bevy_render", "bevy_sprite", "bevy_state", "bevy_text", "bevy_window"] }
