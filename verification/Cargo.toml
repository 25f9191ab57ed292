[package]
name = "lod_octree"
version = "0.1.0"
edition = "2021"
publish = false

[dependencies]
grid-tree = "=0.2.0"
glam = "=0.21.3"
bevy = { version = "=0.10.1", default-features = false, features = ["bevy_asset", "bevy_core_pipeline", "bevy_pbr", "bevy_render"] }
bevy-inspector-egui = { version = "0.18", default-features = false }
bevy_prototype_debug_lines = { version = "=0.10.2", features = ["3d", "shapes"] }
smooth-bevy-cameras = "=0.8.0"
