[package]
name = "pack_verify"
version = "0.1.0"
edition = "2021"
publish = false

[dependencies]
sha1_smol = "*"
crc32fast = "*"
miniz_oxide = "*"
filebuffer = "*"
