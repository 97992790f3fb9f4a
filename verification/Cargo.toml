[package]
name = "hull2d"
version = "0.1.0"
edition = "2021"
publish = false

[dependencies]
float_eq = "=1.0.1"
robust = "*"
