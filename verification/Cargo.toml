[package]
name = "hdrfix"
version = "0.1.0"
edition = "2021"
publish = false

[dependencies]
clap = "*"
glam = "*"
jpegxr = "*"
mtpng = "*"
notify = "*"
oklab = "*"
png = "*"
rayon = "*"
thiserror = "*"
time = "*"
