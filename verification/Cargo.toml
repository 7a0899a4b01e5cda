[package]
name = "heat_overlay"
version = "0.1.0"
edition = "2021"
publish = false

[dependencies]
gdal = "*"
image = "*"
minifb = "*"
