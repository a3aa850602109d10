[package]
name = "scarlett_control"
version = "0.1.0"
edition = "2021"
publish = false

[dependencies]
alsa = "=0.12.1"
