[package]
name = "text_utils"
version = "0.1.0"
edition = "2021"
publish = false

[dependencies]
anyhow = "1"
indicatif = "0.17"
itertools = "0.10"
num = "0.4"
num_cpus = "1"
numpy = "0.17"
pyo3 = "0.17"
regex = "1"
unicode-segmentation = "1"
