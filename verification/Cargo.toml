[package]
name = "ncd_predict"
version = "0.1.0"
edition = "2021"
publish = false

[dependencies]
indicatif = "*"
opencl3 = "*"
rayon = "*"

[dev-dependencies]
half = "*"
kdtree = "*"
