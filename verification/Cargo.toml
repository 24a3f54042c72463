[package]
name = "voxel_raymarcher"
version = "0.1.0"
edition = "2021"
publish = false

[dependencies]
dot_vox = "5"
rand = "0.8"
serde = { version = "1", features = ["derive"] }
crossbeam-channel = "0.5"
