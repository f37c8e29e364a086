[package]
name = "presse"
version = "0.1.0"
edition = "2021"
publish = false

[dependencies]
lopdf = "=0.46.0"
image = "=0.25.10"
flate2 = "=1.1.10"
clap = { version = "=4.6.7", features = ["derive"] }
indicatif = "=0.18.6"
