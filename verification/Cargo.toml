[package]
name = "iris_parsers"
version = "0.1.0"
edition = "2021"
publish = false

[dependencies]
httparse = "*"
goblin = "*"
