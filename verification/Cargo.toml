[package]
name = "scene_ecs"
version = "0.1.0"
edition = "2021"
publish = false

[dependencies]
bincode = "1"
imgui = "*"
serde = { version = "1", features = ["derive"] }
uuid = { version = "1", features = ["serde"] }
