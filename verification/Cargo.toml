[package]
name = "dungeon_world"
version = "0.1.0"
edition = "2021"
publish = false

[dependencies]
rand = "0.4"
image = { version = "0.24", default-features = false, features = ["png"] }
serde = { version = "1", features = ["derive"] }
