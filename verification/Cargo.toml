[package]
name = "ranked_map"
version = "0.1.0"
edition = "2021"
publish = false

[dependencies]
chashmap = "2"
serde = { version = "1", features = ["derive"] }
