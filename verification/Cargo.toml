[package]
name = "tag_universe"
version = "0.1.0"
edition = "2021"
publish = false

[dependencies]
pathfinding = "*"
serde = { version = "*", features = ["derive"] }
serde_json = "*"
