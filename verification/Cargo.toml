[package]
name = "blooms_db"
version = "0.1.0"
edition = "2021"
publish = false

[dependencies]
byteorder = "1"
ethbloom = "0.5"
