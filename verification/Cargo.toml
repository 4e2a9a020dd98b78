[package]
name = "floodfill"
version = "0.1.0"
edition = "2021"
publish = false

[dependencies]
rand = "0.8"
rand_xoshiro = "0.6"
clap = { version = "4", features = ["derive"] }
image = { version = "0.24", default-features = false, features = ["png", "jpeg"] }
anyhow = "1"
