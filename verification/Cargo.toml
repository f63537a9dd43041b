[package]
name = "wave_field_rs"
version = "0.1.0"
edition = "2021"
publish = false

[dependencies]
ndarray = "0.16"
num-complex = "0.4"
rand = "0.8"
rand_distr = "0.4"
rustfft = "6"
