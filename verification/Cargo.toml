[package]
name = "mandelbrot_generator"
version = "0.1.0"
edition = "2021"
publish = false

[dependencies]
clap = { version = "4", features = ["derive"] }
image = { version = "0.25", default-features = false, features = ["png"] }
indicatif = "0.17"
num-complex = "0.4"
