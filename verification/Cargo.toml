[package]
name = "signal_processing"
version = "0.1.0"
edition = "2021"
publish = false

[dependencies]
num = "*"
ndarray = "*"
plotters = "*"
thiserror = "*"
array_math = "*"
option_trait = "*"
