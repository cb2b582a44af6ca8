[package]
name = "pathtracer"
version = "0.1.0"
edition = "2021"
publish = false

[dependencies]
cgmath = "0.16"
image = { version = "0.19", default-features = false, features = ["png_codec"] }
indicatif = "0.9"
rand = "0.4"
threadpool = "1.7"
