[package]
name = "vecdump"
version = "0.1.0"
edition = "2021"
publish = false

[dependencies]
bincode = "1"
lexical = "*"
memmap = "0.7"
rayon = "*"
