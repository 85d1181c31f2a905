[package]
name = "martian_sand"
version = "0.1.0"
edition = "2021"
publish = false

[dependencies]
pixels = "0.3"
rand = "0.7"
rayon = "1"
serde = { version = "1", features = ["derive"] }
serde_json = "1"
winit = "0.24"
winit_input_helper = "0.9"
