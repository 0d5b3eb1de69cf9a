[package]
name = "aus_vs_hound"
version = "0.1.0"
edition = "2021"
publish = false

[dependencies]
audio_samples = { version = "=2.0.1", features = ["channels"] }
audio_samples_io = "=0.3.3"
hound = "=3.5.1"
libc = "=0.2.191"
memmap2 = "=0.9.12"
