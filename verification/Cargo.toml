[package]
name = "luna"
version = "0.2.0"
edition = "2021"
publish = false

[dependencies]
font8x8 = "*"
