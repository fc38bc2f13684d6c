[package]
name = "rvg"
version = "0.1.0"
edition = "2021"
publish = false

[dependencies]
zstd = "=0.14.3"
ruzstd = "=0.9.1"
pix = "=0.13.4"
footile = "=0.7.0"
