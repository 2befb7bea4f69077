[package]
name = "wave_function"
version = "0.1.0"
edition = "2021"
publish = false

[dependencies]
fixedbitset = "=0.5.7"
ndarray = "0.16"
photo = "2"
rand = "=0.9.5"
anyhow = "1"
indicatif = "0.18"
serde = { version = "1", features = ["derive"] }
serde_yaml = "0.9"
clap = { version = "4", features = ["derive"] }
