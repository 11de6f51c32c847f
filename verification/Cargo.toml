[package]
name = "contort"
version = "0.1.0"
edition = "2021"
publish = false

[dependencies]
fgf = "=1.2.1"
butterfly-fft = "=1.0.2"
poly-ring = "=1.0.0"
