[package]
name = "pngopt"
version = "0.1.0"
edition = "2021"
publish = false

[dependencies]
miniz_oxide = "*"
indexmap = "*"
image = { version = "*", default-features = false, features = ["png"] }
filetime = "*"
log = "*"
