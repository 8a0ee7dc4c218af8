[package]
name = "wav2srt"
version = "0.1.0"
edition = "2021"
publish = false

[dependencies]
wav = "*"
clap = { version = "*", features = ["derive"] }
