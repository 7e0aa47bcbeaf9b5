[package]
name = "bevy_mod_skinned_aabb"
version = "0.1.0"
edition = "2021"
publish = false

[dependencies]
bevy_app = "=0.19.1"
bevy_asset = "=0.19.1"
bevy_camera = "=0.19.1"
bevy_ecs = "=0.19.1"
bevy_math = "=0.19.1"
bevy_mesh = "=0.19.1"
bevy_reflect = "=0.19.1"
bevy_transform = "=0.19.1"
