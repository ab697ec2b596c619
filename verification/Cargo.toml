[package]
name = "shamirs"
version = "0.1.0"
edition = "2021"
publish = false

[dependencies]
rand = "0.8"
subtle = "2"
zeroize = "1"
