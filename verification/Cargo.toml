[package]
name = "fireredvad"
version = "0.1.0"
edition = "2021"
publish = false

[dependencies]
anyhow = "1"
clap = { version = "4", features = ["derive"] }
gemm = "0.18"
hound = "3.5"
ndarray = "0.16"
ndarray-npy = "0.9"
rayon = "1"
realfft = "3"
rubato = "0.16"
serde = { version = "1", features = ["derive"] }
serde_json = "1"
