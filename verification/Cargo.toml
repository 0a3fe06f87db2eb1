[package]
name = "cbuild"
version = "0.1.0"
edition = "2021"
publish = false

[dependencies]
cc = "1"
pathdiff = "0.2"
