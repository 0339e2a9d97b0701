[package]
name = "bakare"
version = "0.1.0"
edition = "2021"
publish = false

[dependencies]
sha2 = "*"
hex = "*"
rand = "0.8"
uuid = "*"
reed-solomon = "*"
walkdir = "*"
