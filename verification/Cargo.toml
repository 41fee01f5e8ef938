[package]
name = "space_editor"
version = "0.1.0"
edition = "2021"
publish = false

[dependencies]
bevy = { version = "0.11", default-features = false, features = ["bevy_asset", "bevy_scene"] }
bevy-scene-hook = "7"
