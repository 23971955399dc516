[package]
name = "micrograd"
version = "0.1.0"
edition = "2021"
publish = false

[dependencies]
rustc_apfloat = "*"
libm = "*"
bytemuck = "*"
rand = "0.8"
graphviz-rust = "*"
