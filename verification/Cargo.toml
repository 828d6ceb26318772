[package]
name = "neuro_fantasia"
version = "0.1.0"
edition = "2021"
publish = false

[dependencies]
anyhow = "1"
clap = { version = "4", features = ["derive"] }
fundsp = "*"
hound = "3"
ndarray = "0.16"
once_cell = "1"
rand = "0.8"
rand_distr = "0.4"
rayon = "1"
rustfft = "6"
serde = { version = "1", features = ["derive"] }
serde_json = "1"
walkdir = "2"
