[package]
name = "i_overlay"
version = "0.1.0"
edition = "2021"
publish = false

[dependencies]
i_float = "*"
i_shape = "*"
rayon = "1"
