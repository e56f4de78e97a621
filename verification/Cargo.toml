[package]
name = "korama"
version = "0.1.0"
edition = "2021"
publish = false

[dependencies]
rand = "*"
id3 = "*"
rodio = "*"
