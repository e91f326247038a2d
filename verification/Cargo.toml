[package]
name = "tachiom"
version = "0.1.0"
edition = "2021"
publish = false

[dependencies]
anyhow = "*"
clap = { version = "*", features = ["derive"] }
half = "*"
kannolo = "*"
ndarray = "*"
ndarray-npy = "*"
rayon = "*"
rustc-hash = "*"
serde = { version = "*", features = ["derive"] }
