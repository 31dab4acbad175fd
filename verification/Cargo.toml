[package]
name = "hadronis"
version = "0.1.0"
edition = "2021"
publish = false

[dependencies]
bytemuck = "*"
hdrhistogram = "*"
memmap2 = "*"
nalgebra = "*"
numpy = "*"
plotters = "*"
pyo3 = "*"
rayon = "*"
safetensors = "*"
