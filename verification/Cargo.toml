[package]
name = "pixel_map"
version = "0.1.0"
edition = "2021"
publish = false

[dependencies]
bytemuck = "*"
rand = "*"
line_drawing = "*"

[dependencies.bevy]
version = "*"
default-features = false
features = ["bevy_render", "bevy_sprite", "bevy_asset", "bevy_core_pipeline"]
