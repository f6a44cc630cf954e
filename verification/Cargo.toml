[package]
name = "room_generator"
version = "0.1.0"
edition = "2021"
publish = false

[dependencies]
bresenham = "0.1"
delaunator = "1"
fastrand = "2"
grid = "0.10"
iter_num_tools = "0.7"
itertools = "0.11"
pathfinding = "4"
petgraph = "0.6"
bevy = { version = "0.11", default-features = false }
ron = "0.8"
serde = { version = "1", features = ["derive"] }
serde_yaml = "0.9"
