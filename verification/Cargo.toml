[package]
name = "h3-raster"
version = "0.1.0"
edition = "2021"
publish = false

[dependencies]
crossbeam = "*"
gdal = "*"
geo-types = "*"
h3o = "*"
log = "*"
thiserror = "*"
