[package]
name = "copycat"
version = "0.1.0"
edition = "2021"
publish = false

[dependencies]
image_hasher = "*"
image = { version = "*", default-features = false, features = ["png", "jpeg"] }
rayon = "1"
indicatif = "*"
clap = { version = "4", features = ["derive"] }
anyhow = "1"
