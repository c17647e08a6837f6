[package]
name = "rusty_chromaprint"
version = "0.2.0"
edition = "2021"
publish = false

[dependencies]
anyhow = "1"
base64 = "0.21"
chrono = "0.4"
clap = { version = "4", features = ["derive"] }
rubato = "0.12"
rustfft = "6.1"
symphonia = "0.5"
