[package]
name = "libm"
version = "0.2.11"
edition = "2021"
publish = false

[dependencies]
no-panic = "0.1"
