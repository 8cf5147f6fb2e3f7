[package]
name = "veg"
version = "0.1.0"
edition = "2021"
publish = false

[dependencies]
anyhow = "*"
colored = "*"
strip-ansi-escapes = "*"
unicode-segmentation = "*"
