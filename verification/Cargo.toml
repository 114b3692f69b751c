[package]
name = "fictionary"
version = "0.1.0"
edition = "2021"
publish = false

[dependencies]
weighted_rand = "*"
rand = "0.8"
camino = "*"
clap = { version = "*", features = ["derive"] }
color-eyre = "*"
directories = "*"
eyre = "*"
thiserror = "*"
