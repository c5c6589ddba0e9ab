[package]
name = "typst_vfs"
version = "0.1.0"
edition = "2021"
publish = false

[dependencies]
flate2 = "1"
tar = "0.4"
siphasher = "*"
hex = "*"
base64 = "*"
