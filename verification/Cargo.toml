[package]
name = "water_sandbox"
version = "0.1.1"
edition = "2021"
publish = false

[dependencies]
clap = { version = "4", features = ["derive"] }
colored = "2"
image = { version = "0.24", default-features = false, features = ["png", "bmp", "jpeg"] }
itertools = "0.12"
rand = "0.8"
thiserror = "1"
