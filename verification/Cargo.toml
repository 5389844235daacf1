[package]
name = "audio_monitor"
version = "0.1.0"
edition = "2021"
publish = false

[dependencies]
anyhow = "1"
pipewire = "0.8"
rustfft = "6"
