[package]
name = "qsim"
version = "0.1.0"
edition = "2021"
publish = false

[dependencies]
rand = "0.8"
nalgebra = "0.33"
num-complex = "0.4"
