[package]
name = "gdron"
version = "0.1.0"
edition = "2021"
publish = false

[dependencies]
serde = "1"
ron = "0.8"
godot = "0.1"
