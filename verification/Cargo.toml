[package]
name = "random_gradient_generator"
version = "0.1.0"
edition = "2021"
publish = false

[dependencies]
bmp = "0.5"
simdnoise = "3.1"
clap = { version = "4", features = ["derive"] }
rand = "0.8"
