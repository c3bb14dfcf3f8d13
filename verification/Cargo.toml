[package]
name = "voxel_world"
version = "0.1.0"
edition = "2021"
publish = false

[dependencies]
rand = "=0.7.3"
vek = "=0.12.1"
gl = "=0.14.0"
sdl2 = "=0.34.5"
image = "=0.23.14"
bevy = { version = "=0.2.1", default-features = false }
notify = "=5.0.0-pre.2"
