[package]
name = "ecfft"
version = "0.1.0"
edition = "2021"
publish = false

[dependencies]
halo2curves = { version = "=0.10.0", features = ["asm"] }
