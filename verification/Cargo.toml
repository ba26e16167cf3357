[package]
name = "maze_wars"
version = "0.1.0"
edition = "2021"
publish = false

[dependencies]
rand = "0.8.5"
rand_chacha = "0.3.1"
serde = { version = "1", features = ["derive"] }
bincode = { version = "2.0.1", features = ["serde"] }
macroquad = "0.4"
