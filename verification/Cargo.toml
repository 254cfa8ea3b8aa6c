[package]
name = "spatial_heatmap"
version = "0.1.0"
edition = "2021"
publish = false

[dependencies]
hsl = "*"
image = "*"
