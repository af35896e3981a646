[package]
name = "gridflow"
version = "0.1.0"
edition = "2021"
publish = false

[dependencies]
serde = { version = "*", features = ["derive"] }
log = "*"
screeps-game-api = "*"
