[package]
name = "remml"
version = "0.1.0"
edition = "2021"
publish = false

[dependencies]
tiny-skia = "*"
parley = "*"
skrifa = "*"
